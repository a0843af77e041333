use vstd::arithmetic::div_mod::{
    lemma_div_multiples_vanish, lemma_fundamental_div_mod, lemma_fundamental_div_mod_converse,
};
use vstd::prelude::*;

use crate::brightness::Brightness;
use crate::pixels::{PixelsView, Yuyv};

verus! {

/// The luma samples of column `x`, rows `y0` up to `y1`, added up.
pub open spec fn column_sum(pixels: PixelsView, x: int, y0: int, y1: int) -> int
    decreases y1 - y0,
{
    if y1 <= y0 {
        0
    } else {
        column_sum(pixels, x, y0, y1 - 1) + pixels.luma(x, y1 - 1).0
    }
}

/// The luma samples of the block `[x0, x1) x [y0, y1)`, added up.
pub open spec fn block_sum(pixels: PixelsView, x0: int, x1: int, y0: int, y1: int) -> int
    decreases x1 - x0,
{
    if x1 <= x0 {
        0
    } else {
        block_sum(pixels, x0, x1 - 1, y0, y1) + column_sum(pixels, x1 - 1, y0, y1)
    }
}

/// How many cells it takes to span an extent; the last may be cut short.
pub open spec fn blocks_across(extent: int, cell: int) -> int {
    (extent + cell - 1) / cell
}

/// Where the block that starts at `origin` ends: a cell further, or at the
/// buffer's edge where that comes first.
pub open spec fn block_end(origin: int, cell: int, extent: int) -> int {
    if origin + cell < extent {
        origin + cell
    } else {
        extent
    }
}

/// The mean brightness of the block of `cell_width x cell_height` at
/// `(x, y)`, clipped to the buffer: the sum of the samples that are there
/// over their number, truncated.
pub open spec fn block_average(
    pixels: PixelsView,
    x: int,
    y: int,
    cell_width: int,
    cell_height: int,
) -> Brightness {
    let x1 = block_end(x, cell_width, pixels.width as int);
    let y1 = block_end(y, cell_height, pixels.height as int);
    Brightness((block_sum(pixels, x, x1, y, y1) / ((x1 - x) * (y1 - y))) as u8)
}

/// The `k`-th block in row-major order: its origin and its mean brightness.
pub open spec fn block_item(pixels: PixelsView, cell_width: int, cell_height: int, k: int) -> (
    u32,
    u32,
    Brightness,
) {
    let across = blocks_across(pixels.width as int, cell_width);
    let x = (k % across) * cell_width;
    let y = (k / across) * cell_height;
    (x as u32, y as u32, block_average(pixels, x, y, cell_width, cell_height))
}

/// All blocks of a buffer in row-major order, each with its origin and its
/// mean brightness.
pub open spec fn block_averages(pixels: PixelsView, cell_width: int, cell_height: int) -> Seq<
    (u32, u32, Brightness),
> {
    Seq::new(
        (blocks_across(pixels.width as int, cell_width) * blocks_across(
            pixels.height as int,
            cell_height,
        )) as nat,
        |k: int| block_item(pixels, cell_width, cell_height, k),
    )
}

/// Origin of the cell that holds coordinate `v`.
pub open spec fn block_origin(v: int, cell: int) -> int {
    (v / cell) * cell
}

/// Number of the block that holds pixel `(x, y)`, in row-major order.
pub open spec fn block_number(
    x: int,
    y: int,
    cell_width: int,
    cell_height: int,
    width: int,
) -> int {
    (y / cell_height) * blocks_across(width, cell_width) + x / cell_width
}

/// A walk over the blocks of a buffer as contracts see it.
pub struct WalkView {
    /// The buffer that is walked.
    pub pixels: PixelsView,
    /// Width of a cell.
    pub width: u32,
    /// Height of a cell.
    pub height: u32,
    /// Origin of the next block.
    pub x: u32,
    /// Origin of the next block.
    pub y: u32,
    /// Whether the last block has been given out.
    pub done: bool,
}

impl WalkView {
    /// The cell is not empty, and the next block starts on the cell grid,
    /// inside the buffer.
    pub open spec fn wf(self) -> bool {
        &&& self.pixels.wf()
        &&& self.width > 0
        &&& self.height > 0
        &&& !self.done ==> {
            &&& self.x < self.pixels.width
            &&& self.y < self.pixels.height
            &&& self.x as int % self.width as int == 0
            &&& self.y as int % self.height as int == 0
        }
    }

    /// Number of blocks already given out.
    pub open spec fn position(self) -> int {
        if self.done {
            block_averages(self.pixels, self.width as int, self.height as int).len() as int
        } else {
            (self.y as int / self.height as int) * blocks_across(
                self.pixels.width as int,
                self.width as int,
            ) + self.x as int / self.width as int
        }
    }

    /// The blocks still to come, in order.
    pub open spec fn remaining(self) -> Seq<(u32, u32, Brightness)> {
        block_averages(self.pixels, self.width as int, self.height as int).skip(self.position())
    }
}

/// A walk over a buffer in blocks of one cell, row by row, that gives the
/// origin and the mean brightness of each block.
#[derive(Debug)]
pub struct IterAvg<'pix> {
    pixels: &'pix Yuyv,
    width: u32,
    height: u32,
    x: u32,
    y: u32,
    done: bool,
}

impl<'pix> View for IterAvg<'pix> {
    type V = WalkView;

    closed spec fn view(&self) -> WalkView {
        WalkView {
            pixels: self.pixels@,
            width: self.width,
            height: self.height,
            x: self.x,
            y: self.y,
            done: self.done,
        }
    }
}

proof fn lemma_blocks_across(extent: int, cell: int)
    requires
        0 <= extent,
        0 < cell,
    ensures
        0 <= blocks_across(extent, cell),
        (blocks_across(extent, cell) - 1) * cell < extent || extent == 0,
        extent <= blocks_across(extent, cell) * cell,
        extent == 0 ==> blocks_across(extent, cell) == 0,
        extent > 0 ==> blocks_across(extent, cell) > 0,
{
    let n = (extent + cell - 1) / cell;
    lemma_fundamental_div_mod(extent + cell - 1, cell);
    let r = (extent + cell - 1) % cell;
    assert(0 <= r < cell);
    assert(cell * n == n * cell) by (nonlinear_arith);
    assert((n - 1) * cell == n * cell - cell) by (nonlinear_arith);
    if extent == 0 {
        assert(n == 0) by (nonlinear_arith)
            requires
                cell - 1 == n * cell + r,
                0 <= r < cell,
                0 < cell,
        ;
    } else {
        assert(n > 0) by (nonlinear_arith)
            requires
                extent + cell - 1 == n * cell + r,
                0 <= r < cell,
                0 < cell,
                extent > 0,
        ;
    }
    assert(0 <= n) by (nonlinear_arith)
        requires
            extent + cell - 1 == n * cell + r,
            0 <= r < cell,
            0 < cell,
            0 <= extent,
    ;
}

/// Where a block origin stands among the blocks that span an extent.
proof fn lemma_block_position(extent: int, cell: int, origin: int)
    requires
        0 < cell,
        0 <= origin < extent,
        origin % cell == 0,
    ensures
        0 <= origin / cell < blocks_across(extent, cell),
        (origin / cell) * cell == origin,
        origin + cell >= extent ==> origin / cell == blocks_across(extent, cell) - 1,
        origin + cell < extent ==> (origin + cell) % cell == 0 && (origin + cell) / cell == origin
            / cell + 1,
{
    let q = origin / cell;
    let n = blocks_across(extent, cell);
    lemma_fundamental_div_mod(origin, cell);
    lemma_blocks_across(extent, cell);
    assert(cell * q == q * cell) by (nonlinear_arith);
    assert(0 <= q < n) by (nonlinear_arith)
        requires
            q * cell == origin,
            0 <= origin < extent,
            extent <= n * cell,
            0 < cell,
    ;
    if origin + cell >= extent {
        assert(q >= n - 1) by (nonlinear_arith)
            requires
                q * cell == origin,
                origin + cell >= extent,
                (n - 1) * cell < extent,
                0 < cell,
        ;
    } else {
        assert((q + 1) * cell == origin + cell) by (nonlinear_arith)
            requires
                q * cell == origin,
        ;
        lemma_fundamental_div_mod_converse(origin + cell, cell, q + 1, 0);
    }
}

/// The origin of the `k`-th block.
proof fn lemma_block_origin(k: int, across: int, down: int, row: int, column: int)
    requires
        0 <= column < across,
        0 <= row < down,
        k == row * across + column,
    ensures
        k % across == column,
        k / across == row,
        0 <= k < across * down,
{
    lemma_fundamental_div_mod_converse(k, across, row, column);
    assert(0 <= k < across * down) by (nonlinear_arith)
        requires
            0 <= column < across,
            0 <= row < down,
            k == row * across + column,
    ;
}

proof fn lemma_column_sum_bound(pixels: PixelsView, x: int, y0: int, y1: int)
    requires
        y0 <= y1,
    ensures
        0 <= column_sum(pixels, x, y0, y1) <= 255 * (y1 - y0),
    decreases y1 - y0,
{
    if y0 < y1 {
        lemma_column_sum_bound(pixels, x, y0, y1 - 1);
    }
}

proof fn lemma_block_sum_bound(pixels: PixelsView, x0: int, x1: int, y0: int, y1: int)
    requires
        x0 <= x1,
        y0 <= y1,
    ensures
        0 <= block_sum(pixels, x0, x1, y0, y1) <= 255 * ((x1 - x0) * (y1 - y0)),
    decreases x1 - x0,
{
    if x0 < x1 {
        lemma_block_sum_bound(pixels, x0, x1 - 1, y0, y1);
        lemma_column_sum_bound(pixels, x1 - 1, y0, y1);
        assert((x1 - 1 - x0) * (y1 - y0) + (y1 - y0) == (x1 - x0) * (y1 - y0))
            by (nonlinear_arith);
    } else {
        assert((x1 - x0) * (y1 - y0) == 0) by (nonlinear_arith)
            requires
                x1 - x0 == 0,
        ;
    }
}

/// The mean of a block is again a brightness.
pub proof fn lemma_block_average_in_range(pixels: PixelsView, x0: int, x1: int, y0: int, y1: int)
    requires
        x0 < x1,
        y0 < y1,
    ensures
        0 <= block_sum(pixels, x0, x1, y0, y1) / ((x1 - x0) * (y1 - y0)) <= 255,
{
    lemma_block_sum_bound(pixels, x0, x1, y0, y1);
    let n = (x1 - x0) * (y1 - y0);
    let s = block_sum(pixels, x0, x1, y0, y1);
    assert(n > 0) by (nonlinear_arith)
        requires
            n == (x1 - x0) * (y1 - y0),
            x0 < x1,
            y0 < y1,
    ;
    lemma_fundamental_div_mod(s, n);
    assert(0 <= s / n <= 255) by (nonlinear_arith)
        requires
            s == n * (s / n) + s % n,
            0 <= s % n < n,
            0 <= s <= 255 * n,
            n > 0,
    ;
}

proof fn lemma_uniform_column(pixels: PixelsView, x: int, y0: int, y1: int, v: u8)
    requires
        y0 <= y1,
        forall|y: int| y0 <= y < y1 ==> (#[trigger] pixels.luma(x, y)).0 == v,
    ensures
        column_sum(pixels, x, y0, y1) == v * (y1 - y0),
    decreases y1 - y0,
{
    if y0 < y1 {
        lemma_uniform_column(pixels, x, y0, y1 - 1, v);
        assert(pixels.luma(x, y1 - 1).0 == v);
        assert(v * (y1 - 1 - y0) + v == v * (y1 - y0)) by (nonlinear_arith);
    } else {
        assert(v * (y1 - y0) == 0) by (nonlinear_arith)
            requires
                y1 - y0 == 0,
        ;
    }
}

/// The mean of a block whose samples all have the value `v` is `v` exactly.
pub proof fn lemma_uniform_block_average(
    pixels: PixelsView,
    x0: int,
    x1: int,
    y0: int,
    y1: int,
    v: u8,
)
    requires
        x0 <= x1,
        y0 <= y1,
        forall|x: int, y: int|
            x0 <= x < x1 && y0 <= y < y1 ==> (#[trigger] pixels.luma(x, y)).0 == v,
    ensures
        block_sum(pixels, x0, x1, y0, y1) == v * ((x1 - x0) * (y1 - y0)),
        x0 < x1 && y0 < y1 ==> block_sum(pixels, x0, x1, y0, y1) / ((x1 - x0) * (y1 - y0)) == v,
    decreases x1 - x0,
{
    let n = (x1 - x0) * (y1 - y0);
    if x0 < x1 {
        lemma_uniform_block_average(pixels, x0, x1 - 1, y0, y1, v);
        lemma_uniform_column(pixels, x1 - 1, y0, y1, v);
        assert(v * ((x1 - 1 - x0) * (y1 - y0)) + v * (y1 - y0) == v * ((x1 - x0) * (y1 - y0)))
            by (nonlinear_arith);
        if y0 < y1 {
            assert(n > 0) by (nonlinear_arith)
                requires
                    n == (x1 - x0) * (y1 - y0),
                    x0 < x1,
                    y0 < y1,
            ;
            assert(v * n == n * v) by (nonlinear_arith);
            lemma_div_multiples_vanish(v as int, n);
        }
    } else {
        assert(v * ((x1 - x0) * (y1 - y0)) == 0) by (nonlinear_arith)
            requires
                x1 - x0 == 0,
        ;
    }
}

impl Yuyv {
    /// Starts the walk over the blocks of `width x height` pixels.
    pub fn iter_avg(&self, width: u32, height: u32) -> (r: IterAvg<'_>)
        requires
            width > 0,
            height > 0,
        ensures
            r@.pixels == self@,
            r@.width == width,
            r@.height == height,
            r@.wf(),
            r@.remaining() == block_averages(self@, width as int, height as int),
    {
        IterAvg::new(self, width, height)
    }
}

impl<'pix> IterAvg<'pix> {
    /// The invariant: every value is well formed.
    #[verifier::type_invariant]
    pub open spec fn inv(&self) -> bool {
        self@.wf()
    }

    /// Starts the walk at the first block.
    pub fn new(pixels: &'pix Yuyv, width: u32, height: u32) -> (r: Self)
        requires
            width > 0,
            height > 0,
        ensures
            r@.pixels == pixels@,
            r@.width == width,
            r@.height == height,
            r@.wf(),
            r@.remaining() == block_averages(pixels@, width as int, height as int),
    {
        let done = pixels.width() == 0 || pixels.height() == 0;
        let ghost all = block_averages(pixels@, width as int, height as int);
        proof {
            lemma_blocks_across(pixels@.width as int, width as int);
            lemma_blocks_across(pixels@.height as int, height as int);
            if done {
                assert(blocks_across(pixels@.width as int, width as int) * blocks_across(
                    pixels@.height as int,
                    height as int,
                ) == 0) by (nonlinear_arith)
                    requires
                        blocks_across(pixels@.width as int, width as int) == 0 || blocks_across(
                            pixels@.height as int,
                            height as int,
                        ) == 0,
                ;
            }
            assert(all.skip(0) =~= all);
        }
        let r = IterAvg { pixels, width, height, x: 0, y: 0, done };
        proof {
            assert(0int / height as int == 0 && 0int / width as int == 0) by (nonlinear_arith)
                requires
                    width > 0,
                    height > 0,
            ;
            assert(0 * blocks_across(pixels@.width as int, width as int) == 0);
            assert(r@.position() == 0);
        }
        r
    }

    /// Gives the origin and the mean brightness of the next block, or `None`
    /// when every block has been given out.
    pub fn next(&mut self) -> (r: Option<(u32, u32, Brightness)>)
        ensures
            final(self)@.pixels == old(self)@.pixels,
            final(self)@.width == old(self)@.width,
            final(self)@.height == old(self)@.height,
            final(self)@.wf(),
            old(self)@.remaining().len() == 0 ==> r is None && final(self)@ == old(self)@,
            old(self)@.remaining().len() > 0 ==> r == Some(old(self)@.remaining()[0])
                && final(self)@.remaining() == old(self)@.remaining().skip(1),
    {
        proof {
            use_type_invariant(&*self);
        }
        let ghost before = self@;
        let ghost all = block_averages(before.pixels, before.width as int, before.height as int);
        if self.done {
            return None;
        }
        let frame_width = self.pixels.width();
        let frame_height = self.pixels.height();
        let next_x = if self.width >= frame_width - self.x {
            frame_width
        } else {
            self.x + self.width
        };
        let next_y = if self.height >= frame_height - self.y {
            frame_height
        } else {
            self.y + self.height
        };
        let avg = self.average(next_x, next_y);
        let ret = (self.x, self.y, avg);
        let ghost across = blocks_across(frame_width as int, self.width as int);
        let ghost down = blocks_across(frame_height as int, self.height as int);
        let ghost k = before.position();
        proof {
            lemma_block_position(frame_width as int, self.width as int, self.x as int);
            lemma_block_position(frame_height as int, self.height as int, self.y as int);
            lemma_block_origin(
                k,
                across,
                down,
                self.y as int / self.height as int,
                self.x as int / self.width as int,
            );
            assert(all[k] == ret);
            assert(before.remaining()[0] == all[k]);
        }
        if next_x < frame_width {
            self.x = next_x;
            proof {
                assert(self@.position() == k + 1);
            }
        } else if next_y < frame_height {
            self.x = 0;
            self.y = next_y;
            proof {
                assert((before.y as int / before.height as int + 1) * across == (before.y as int
                    / before.height as int) * across + across) by (nonlinear_arith);
                assert(self@.position() == k + 1);
            }
        } else {
            self.done = true;
            proof {
                assert(across * down == (down - 1) * across + across) by (nonlinear_arith);
                assert(self@.position() == k + 1);
            }
        }
        proof {
            assert(before.remaining().skip(1) =~= all.skip(k + 1));
        }
        Some(ret)
    }

    /// The mean brightness of the block from the current origin up to
    /// `(next_x, next_y)`.
    fn average(&self, next_x: u32, next_y: u32) -> (avg: Brightness)
        requires
            !self@.done,
            self@.wf(),
            next_x == block_end(self@.x as int, self@.width as int, self@.pixels.width as int),
            next_y == block_end(self@.y as int, self@.height as int, self@.pixels.height as int),
        ensures
            avg == block_average(
                self@.pixels,
                self@.x as int,
                self@.y as int,
                self@.width as int,
                self@.height as int,
            ),
    {
        let ghost pixels = self.pixels@;
        let x0 = self.x;
        let y0 = self.y;
        let rows: u64 = (next_y - y0) as u64;
        let mut total: u128 = 0;
        let mut x: u32 = x0;
        while x < next_x
            invariant
                x0 <= x <= next_x <= pixels.width,
                y0 < next_y <= pixels.height,
                rows == next_y - y0,
                pixels == self.pixels@,
                total == block_sum(pixels, x0 as int, x as int, y0 as int, next_y as int),
            decreases next_x - x,
        {
            let mut column: u64 = 0;
            let mut y: u32 = y0;
            while y < next_y
                invariant
                    x0 <= x < next_x <= pixels.width,
                    y0 <= y <= next_y <= pixels.height,
                    pixels == self.pixels@,
                    column == column_sum(pixels, x as int, y0 as int, y as int),
                    column <= 255 * (y - y0),
                decreases next_y - y,
            {
                let b = self.pixels.get_brightness(x, y);
                column = column + b.0 as u64;
                y = y + 1;
            }
            proof {
                lemma_block_sum_bound(pixels, x0 as int, x as int, y0 as int, next_y as int);
                assert((x - x0) * (next_y - y0) <= 0xffff_ffff * 0xffff_ffff) by (nonlinear_arith)
                    requires
                        0 <= x - x0 <= 0xffff_ffff,
                        0 <= next_y - y0 <= 0xffff_ffff,
                ;
            }
            total = total + column as u128;
            x = x + 1;
        }
        proof {
            lemma_block_average_in_range(
                pixels,
                x0 as int,
                next_x as int,
                y0 as int,
                next_y as int,
            );
            assert((next_x - x0) * (next_y - y0) <= 0xffff_ffff * 0xffff_ffff
                && (next_x - x0) * (next_y - y0) > 0) by (nonlinear_arith)
                requires
                    0 < next_x - x0 <= 0xffff_ffff,
                    0 < next_y - y0 <= 0xffff_ffff,
            ;
        }
        let npix: u128 = ((next_x - x0) as u128) * (rows as u128);
        Brightness((total / npix) as u8)
    }
}

/// A coordinate within a cell of the grid has that cell's origin.
pub proof fn lemma_same_cell(v: int, cell: int, origin: int)
    requires
        0 < cell,
        0 <= origin,
        origin % cell == 0,
        origin <= v < origin + cell,
    ensures
        v / cell == origin / cell,
        block_origin(v, cell) == origin,
{
    lemma_fundamental_div_mod(origin, cell);
    let q = origin / cell;
    assert(cell * q == q * cell) by (nonlinear_arith);
    lemma_fundamental_div_mod_converse(v, cell, q, v - origin);
}

/// The cell of a coordinate starts on the grid, at or before the coordinate,
/// and ends after it.
pub proof fn lemma_cell_of(v: int, cell: int)
    requires
        0 < cell,
        0 <= v,
    ensures
        0 <= block_origin(v, cell) <= v < block_origin(v, cell) + cell,
        block_origin(v, cell) % cell == 0,
        block_origin(v, cell) / cell == v / cell,
{
    lemma_fundamental_div_mod(v, cell);
    let q = v / cell;
    assert(cell * q == q * cell) by (nonlinear_arith);
    assert(0 <= q) by (nonlinear_arith)
        requires
            v == q * cell + v % cell,
            0 <= v % cell < cell,
            0 <= v,
            0 < cell,
    ;
    assert(0 <= q * cell) by (nonlinear_arith)
        requires
            0 <= q,
            0 < cell,
    ;
    lemma_fundamental_div_mod_converse(q * cell, cell, q, 0);
}

/// The block with number `k` is the one at column `k % across`, row
/// `k / across`, and a pixel lies in it exactly if its cell is that one.
pub proof fn lemma_block_number(
    x: int,
    y: int,
    cell_width: int,
    cell_height: int,
    width: int,
    height: int,
)
    requires
        0 < cell_width,
        0 < cell_height,
        0 <= x < width,
        0 <= y < height,
    ensures
        0 <= x / cell_width < blocks_across(width, cell_width),
        0 <= y / cell_height < blocks_across(height, cell_height),
        block_number(x, y, cell_width, cell_height, width) % blocks_across(width, cell_width) == x
            / cell_width,
        block_number(x, y, cell_width, cell_height, width) / blocks_across(width, cell_width) == y
            / cell_height,
        0 <= block_number(x, y, cell_width, cell_height, width) < blocks_across(width, cell_width)
            * blocks_across(height, cell_height),
{
    let across = blocks_across(width, cell_width);
    let down = blocks_across(height, cell_height);
    lemma_cell_of(x, cell_width);
    lemma_cell_of(y, cell_height);
    lemma_column_in_range(x, cell_width, width);
    lemma_column_in_range(y, cell_height, height);
    let k = block_number(x, y, cell_width, cell_height, width);
    lemma_fundamental_div_mod_converse(k, across, y / cell_height, x / cell_width);
    assert(0 <= k < across * down) by (nonlinear_arith)
        requires
            k == (y / cell_height) * across + x / cell_width,
            0 <= x / cell_width < across,
            0 <= y / cell_height < down,
    ;
}

proof fn lemma_column_in_range(v: int, cell: int, extent: int)
    requires
        0 < cell,
        0 <= v < extent,
    ensures
        0 <= v / cell < blocks_across(extent, cell),
{
    lemma_fundamental_div_mod(v, cell);
    lemma_fundamental_div_mod(extent + cell - 1, cell);
    let q = v / cell;
    let n = (extent + cell - 1) / cell;
    assert(0 <= q < n) by (nonlinear_arith)
        requires
            v == cell * q + v % cell,
            0 <= v % cell < cell,
            extent + cell - 1 == cell * n + (extent + cell - 1) % cell,
            0 <= (extent + cell - 1) % cell < cell,
            0 <= v < extent,
            0 < cell,
    ;
}

/// The block with number `k`: where it starts and what its origin says of
/// its number.
pub proof fn lemma_block_at(reference: PixelsView, cell_width: int, cell_height: int, k: int)
    requires
        reference.wf(),
        0 < cell_width,
        0 < cell_height,
        0 <= k < block_averages(reference, cell_width, cell_height).len(),
    ensures
        ({
            let block = block_averages(reference, cell_width, cell_height)[k];
            let across = blocks_across(reference.width as int, cell_width);
            &&& block.0 < reference.width
            &&& block.1 < reference.height
            &&& block.0 as int % cell_width == 0
            &&& block.1 as int % cell_height == 0
            &&& block.0 as int / cell_width == k % across
            &&& block.1 as int / cell_height == k / across
            &&& block.2 == block_average(
                reference,
                block.0 as int,
                block.1 as int,
                cell_width,
                cell_height,
            )
        }),
{
    let across = blocks_across(reference.width as int, cell_width);
    let down = blocks_across(reference.height as int, cell_height);
    let column = k % across;
    let row = k / across;
    lemma_fundamental_div_mod(reference.width as int + cell_width - 1, cell_width);
    lemma_fundamental_div_mod(reference.height as int + cell_height - 1, cell_height);
    assert(across > 0 && down > 0) by (nonlinear_arith)
        requires
            0 <= k < across * down,
            reference.width + cell_width - 1 == cell_width * across + (reference.width
                + cell_width - 1) % cell_width,
            0 <= (reference.width + cell_width - 1) % cell_width < cell_width,
            0 < cell_width,
    ;
    lemma_fundamental_div_mod(k, across);
    assert(0 <= column < across);
    assert(0 <= row < down) by (nonlinear_arith)
        requires
            k == across * row + column,
            0 <= column < across,
            0 <= k < across * down,
    ;
    let x = column * cell_width;
    let y = row * cell_height;
    assert(0 <= x && x + cell_width <= across * cell_width) by (nonlinear_arith)
        requires
            x == column * cell_width,
            0 <= column < across,
            0 < cell_width,
    ;
    assert(0 <= y && y + cell_height <= down * cell_height) by (nonlinear_arith)
        requires
            y == row * cell_height,
            0 <= row < down,
            0 < cell_height,
    ;
    assert(cell_width * across == across * cell_width) by (nonlinear_arith);
    assert(cell_height * down == down * cell_height) by (nonlinear_arith);
    assert(x < reference.width);
    assert(y < reference.height);
    lemma_fundamental_div_mod_converse(x, cell_width, column, 0);
    lemma_fundamental_div_mod_converse(y, cell_height, row, 0);
}

/// Every pixel lies in exactly one block of the walk: the block with the
/// pixel's block number starts at the origin of the pixel's cell, holds the
/// pixel, and carries the mean brightness of the block at that origin.
pub proof fn lemma_block_of_pixel(
    pixels: PixelsView,
    cell_width: int,
    cell_height: int,
    x: int,
    y: int,
)
    requires
        pixels.wf(),
        0 < cell_width,
        0 < cell_height,
        0 <= x < pixels.width,
        0 <= y < pixels.height,
    ensures
        ({
            let k = block_number(x, y, cell_width, cell_height, pixels.width as int);
            let blocks = block_averages(pixels, cell_width, cell_height);
            &&& 0 <= k < blocks.len()
            &&& blocks[k].0 == block_origin(x, cell_width)
            &&& blocks[k].1 == block_origin(y, cell_height)
            &&& blocks[k].0 <= x < block_end(blocks[k].0 as int, cell_width, pixels.width as int)
            &&& blocks[k].1 <= y < block_end(blocks[k].1 as int, cell_height, pixels.height as int)
            &&& blocks[k].2 == block_average(
                pixels,
                blocks[k].0 as int,
                blocks[k].1 as int,
                cell_width,
                cell_height,
            )
        }),
{
    lemma_block_number(x, y, cell_width, cell_height, pixels.width as int, pixels.height as int);
    lemma_cell_of(x, cell_width);
    lemma_cell_of(y, cell_height);
    let k = block_number(x, y, cell_width, cell_height, pixels.width as int);
    lemma_block_at(pixels, cell_width, cell_height, k);
    let across = blocks_across(pixels.width as int, cell_width);
    let block = block_averages(pixels, cell_width, cell_height)[k];
    lemma_fundamental_div_mod(block.0 as int, cell_width);
    lemma_fundamental_div_mod(block.1 as int, cell_height);
    assert(cell_width * (block.0 as int / cell_width) == (block.0 as int / cell_width)
        * cell_width) by (nonlinear_arith);
    assert(cell_height * (block.1 as int / cell_height) == (block.1 as int / cell_height)
        * cell_height) by (nonlinear_arith);
}

} // verus!
