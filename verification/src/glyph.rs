use itertools::Itertools;
use vstd::arithmetic::div_mod::lemma_fundamental_div_mod_converse;
use vstd::prelude::*;
use vstd::set_lib::{lemma_int_range, lemma_subset_equality, set_int_range};

use crate::brightness::Brightness;

verus! {

/// No two samples share their coordinates.
pub open spec fn distinct_coords(samples: Seq<(u32, u32, Brightness)>) -> bool {
    forall|i: int, j: int|
        0 <= i < j < samples.len() ==> (#[trigger] samples[i]).0 != (#[trigger] samples[j]).0
            || samples[i].1 != samples[j].1
}

/// Every sample lies in the rectangle `[0, width) x [0, height)`.
pub open spec fn within_box(samples: Seq<(u32, u32, Brightness)>, width: int, height: int) -> bool {
    forall|i: int|
        0 <= i < samples.len() ==> (#[trigger] samples[i]).0 < width && samples[i].1 < height
}

/// The samples tile the rectangle `[0, width) x [0, height)`: there are
/// `width * height` of them, all inside it, no two at the same place.
pub open spec fn tiles(samples: Seq<(u32, u32, Brightness)>, width: int, height: int) -> bool {
    &&& samples.len() == width * height
    &&& within_box(samples, width, height)
    &&& distinct_coords(samples)
}

/// Whether some sample sits at `(x, y)`.
pub open spec fn has_sample_at(samples: Seq<(u32, u32, Brightness)>, x: int, y: int) -> bool {
    exists|i: int| 0 <= i < samples.len() && (#[trigger] samples[i]).0 == x && samples[i].1 == y
}

/// The coverage of the sample at `(x, y)`.
pub open spec fn coverage_at(samples: Seq<(u32, u32, Brightness)>, x: int, y: int) -> Brightness {
    let i = choose|i: int|
        0 <= i < samples.len() && (#[trigger] samples[i]).0 == x && samples[i].1 == y;
    samples[i].2
}

/// Position of `(x, y)` in a row-major numbering of a grid of the given width.
pub open spec fn grid_index(x: int, y: int, width: int) -> int {
    y * width + x
}

proof fn lemma_grid_index(x: int, y: int, width: int, height: int)
    requires
        0 <= x < width,
        0 <= y < height,
    ensures
        0 <= grid_index(x, y, width) < width * height,
        grid_index(x, y, width) / width == y,
        grid_index(x, y, width) % width == x,
{
    lemma_fundamental_div_mod_converse(y * width + x, width, y, x);
    assert(y * width + x < width * height) by (nonlinear_arith)
        requires
            0 <= x < width,
            0 <= y < height,
    ;
    assert(0 <= y * width) by (nonlinear_arith)
        requires
            0 <= y,
            0 <= width,
    ;
}

/// Samples that tile a rectangle leave no hole in it: every place of the
/// rectangle holds a sample.
pub proof fn lemma_tiling_covers(
    samples: Seq<(u32, u32, Brightness)>,
    width: int,
    height: int,
    x: int,
    y: int,
)
    requires
        tiles(samples, width, height),
        0 <= x < width,
        0 <= y < height,
    ensures
        has_sample_at(samples, x, y),
{
    let n = samples.len() as int;
    let places = Seq::new(
        samples.len(),
        |i: int| grid_index(samples[i].0 as int, samples[i].1 as int, width),
    );
    assert forall|i: int| 0 <= i < n implies 0 <= #[trigger] places[i] < n by {
        lemma_grid_index(samples[i].0 as int, samples[i].1 as int, width, height);
    }
    assert(places.no_duplicates()) by {
        assert forall|i: int, j: int| 0 <= i < n && 0 <= j < n && i != j implies places[i]
            != places[j] by {
            lemma_grid_index(samples[i].0 as int, samples[i].1 as int, width, height);
            lemma_grid_index(samples[j].0 as int, samples[j].1 as int, width, height);
            if i < j {
                assert(samples[i].0 != samples[j].0 || samples[i].1 != samples[j].1);
            } else {
                assert(samples[j].0 != samples[i].0 || samples[j].1 != samples[i].1);
            }
        }
    }
    places.unique_seq_to_set();
    lemma_int_range(0, n);
    assert(places.to_set().subset_of(set_int_range(0, n))) by {
        assert forall|v: int| places.to_set().contains(v) implies set_int_range(0, n).contains(
            v,
        ) by {
            let i = choose|i: int| 0 <= i < places.len() && places[i] == v;
            assert(0 <= places[i] < n);
        }
    }
    vstd::set_lib::lemma_len_subset(places.to_set(), set_int_range(0, n));
    lemma_subset_equality(places.to_set(), set_int_range(0, n));
    let target = grid_index(x, y, width);
    lemma_grid_index(x, y, width, height);
    assert(set_int_range(0, n).contains(target));
    assert(places.to_set().contains(target));
    let i = choose|i: int| 0 <= i < places.len() && places[i] == target;
    lemma_grid_index(samples[i].0 as int, samples[i].1 as int, width, height);
    assert(samples[i].0 == x && samples[i].1 == y);
}

/// What a font yields for one character at one cell size.
pub struct RasterView {
    /// Width of the cell the glyph is scaled to.
    pub cell_width: u32,
    /// Height of the cell the glyph is scaled to.
    pub cell_height: u32,
    /// Width of the pixel bounding box of the glyph.
    pub width: u32,
    /// Height of the pixel bounding box of the glyph.
    pub height: u32,
    /// The drawn samples `(x, y, coverage)`, relative to the bounding box.
    pub samples: Seq<(u32, u32, Brightness)>,
}

impl RasterView {
    /// The bounding box fits the cell and the drawn samples tile it.
    pub open spec fn wf(self) -> bool {
        &&& self.width <= self.cell_width
        &&& self.height <= self.cell_height
        &&& tiles(self.samples, self.width as int, self.height as int)
    }
}

/// A glyph scaled to a cell and rasterized: its pixel bounding box and one
/// coverage sample for each pixel of the box.
#[derive(Debug)]
pub struct GlyphRaster {
    cell_width: u32,
    cell_height: u32,
    width: u32,
    height: u32,
    samples: Vec<(u32, u32, Brightness)>,
}

impl View for GlyphRaster {
    type V = RasterView;

    closed spec fn view(&self) -> RasterView {
        RasterView {
            cell_width: self.cell_width,
            cell_height: self.cell_height,
            width: self.width,
            height: self.height,
            samples: self.samples@,
        }
    }
}

/// `Itertools::all_unique` over the coordinates of the samples: whether no
/// coordinate pair occurs twice.
#[verifier::external_body]
fn coords_all_unique(samples: &Vec<(u32, u32, Brightness)>) -> (unique: bool)
    ensures
        unique == distinct_coords(samples@),
{
    samples.iter().map(|(x, y, _)| (x, y)).all_unique()
}

impl GlyphRaster {
    /// The invariant: every value is well formed.
    #[verifier::type_invariant]
    pub open spec fn inv(&self) -> bool {
        self@.wf()
    }

    /// Takes the output of a rasterizer, and accepts it if the bounding box
    /// fits the cell and the samples tile the bounding box.
    pub fn new(
        cell_width: u32,
        cell_height: u32,
        width: u32,
        height: u32,
        samples: Vec<(u32, u32, Brightness)>,
    ) -> (r: Option<Self>)
        ensures
            r is Some <==> (RasterView {
                cell_width,
                cell_height,
                width,
                height,
                samples: samples@,
            }).wf(),
            r matches Some(raster) ==> raster@ == (RasterView {
                cell_width,
                cell_height,
                width,
                height,
                samples: samples@,
            }),
    {
        if width > cell_width || height > cell_height {
            return None;
        }
        assert(width * height <= u64::MAX) by (nonlinear_arith)
            requires
                width <= u32::MAX,
                height <= u32::MAX,
        ;
        let area: u64 = (width as u64) * (height as u64);
        if samples.len() as u64 != area {
            return None;
        }
        let mut i: usize = 0;
        while i < samples.len()
            invariant
                i <= samples.len(),
                forall|j: int|
                    0 <= j < i ==> (#[trigger] samples@[j]).0 < width && samples@[j].1 < height,
            decreases samples.len() - i,
        {
            let (x, y, _) = samples[i];
            if x >= width || y >= height {
                return None;
            }
            i = i + 1;
        }
        if !coords_all_unique(&samples) {
            return None;
        }
        Some(GlyphRaster { cell_width, cell_height, width, height, samples })
    }

    /// Width of the cell the glyph is scaled to.
    pub fn cell_width(&self) -> (r: u32)
        ensures
            r == self@.cell_width,
    {
        self.cell_width
    }

    /// Height of the cell the glyph is scaled to.
    pub fn cell_height(&self) -> (r: u32)
        ensures
            r == self@.cell_height,
    {
        self.cell_height
    }
}

/// The zero samples to the right of a bounding box of `width x height`, up to
/// the cell's width: column by column, each from the top.
pub open spec fn column_fill(width: int, height: int, cell_width: int) -> Seq<
    (u32, u32, Brightness),
> {
    Seq::new(
        ((cell_width - width) * height) as nat,
        |k: int| ((width + k / height) as u32, (k % height) as u32, Brightness(0)),
    )
}

/// The zero samples below a bounding box of the given height, down to the
/// cell's height: row by row over the cell's whole width.
pub open spec fn row_fill(height: int, cell_width: int, cell_height: int) -> Seq<
    (u32, u32, Brightness),
> {
    Seq::new(
        ((cell_height - height) * cell_width) as nat,
        |k: int| ((k % cell_width) as u32, (height + k / cell_width) as u32, Brightness(0)),
    )
}

/// The samples of a glyph rendered into its cell: what was drawn, then the
/// columns the bounding box leaves free, then the rows it leaves free.
pub open spec fn rendered_samples(raster: RasterView) -> Seq<(u32, u32, Brightness)> {
    raster.samples + column_fill(
        raster.width as int,
        raster.height as int,
        raster.cell_width as int,
    ) + row_fill(raster.height as int, raster.cell_width as int, raster.cell_height as int)
}

/// A rendered glyph as contracts see it.
pub struct GlyphView {
    /// Width of the cell.
    pub width: u32,
    /// Height of the cell.
    pub height: u32,
    /// The samples `(x, y, coverage)`, relative to the cell's origin.
    pub samples: Seq<(u32, u32, Brightness)>,
}

impl GlyphView {
    /// The samples tile the cell.
    pub open spec fn wf(self) -> bool {
        tiles(self.samples, self.width as int, self.height as int)
    }

    /// The coverage that the glyph puts at `(x, y)` of its cell.
    pub open spec fn coverage(self, x: int, y: int) -> Brightness {
        coverage_at(self.samples, x, y)
    }
}

/// One character drawn into a cell: a coverage sample for every pixel of the
/// cell, with no pixel left out and none given twice.
#[derive(Debug)]
pub struct RenderedGlyph {
    samples: Vec<(u32, u32, Brightness)>,
    width: u32,
    height: u32,
}

impl View for RenderedGlyph {
    type V = GlyphView;

    closed spec fn view(&self) -> GlyphView {
        GlyphView { width: self.width, height: self.height, samples: self.samples@ }
    }
}

proof fn lemma_cell_split(k: int, d: int, n: int)
    requires
        0 <= k < n * d,
        0 < d,
    ensures
        0 <= k / d < n,
        0 <= k % d < d,
        k == (k / d) * d + k % d,
{
    vstd::arithmetic::div_mod::lemma_fundamental_div_mod(k, d);
    vstd::arithmetic::div_mod::lemma_mod_bound(k, d);
    let q = k / d;
    assert(q < n && 0 <= q) by (nonlinear_arith)
        requires
            k == d * q + k % d,
            0 <= k % d < d,
            0 <= k < n * d,
            0 < d,
    ;
    assert(d * q == q * d) by (nonlinear_arith);
}

/// Where the samples of a rendered glyph lie: what was drawn inside the
/// bounding box, and outside of it zero samples only.
proof fn lemma_rendered_regions(raster: RasterView)
    requires
        raster.wf(),
    ensures
        rendered_samples(raster).len() == raster.cell_width * raster.cell_height,
        forall|i: int|
            0 <= i < raster.samples.len() ==> (#[trigger] rendered_samples(raster)[i])
                == raster.samples[i],
        forall|i: int|
            raster.samples.len() <= i < rendered_samples(raster).len() ==> {
                &&& (#[trigger] rendered_samples(raster)[i]).2 == Brightness(0)
                &&& rendered_samples(raster)[i].0 < raster.cell_width
                &&& rendered_samples(raster)[i].1 < raster.cell_height
                &&& rendered_samples(raster)[i].0 >= raster.width || rendered_samples(raster)[i].1
                    >= raster.height
            },
        distinct_coords(rendered_samples(raster)),
{
    let w = raster.width as int;
    let h = raster.height as int;
    let cw = raster.cell_width as int;
    let ch = raster.cell_height as int;
    let cols = column_fill(w, h, cw);
    let rows = row_fill(h, cw, ch);
    let all = rendered_samples(raster);
    let n0 = raster.samples.len() as int;
    assert(0 <= (cw - w) * h && 0 <= (ch - h) * cw && w * h + (cw - w) * h + (ch - h) * cw == cw
        * ch) by (nonlinear_arith)
        requires
            0 <= w <= cw,
            0 <= h <= ch,
    ;
    let n1 = n0 + cols.len();
    assert(all.len() == cw * ch);
    // Where each sample lies.
    assert forall|i: int| 0 <= i < all.len() implies {
        &&& i < n0 ==> all[i] == raster.samples[i] && all[i].0 < w && all[i].1 < h
        &&& n0 <= i < n1 ==> w <= all[i].0 < cw && all[i].1 < h && all[i].0 == w + (i - n0) / h
            && all[i].1 == (i - n0) % h && all[i].2 == Brightness(0)
        &&& n1 <= i ==> all[i].0 < cw && h <= all[i].1 < ch && all[i].0 == (i - n1) % cw
            && all[i].1 == h + (i - n1) / cw && all[i].2 == Brightness(0)
    } by {
        if i < n0 {
        } else if i < n1 {
            lemma_cell_split(i - n0, h, cw - w);
            assert(all[i] == cols[i - n0]);
        } else {
            lemma_cell_split(i - n1, cw, ch - h);
            assert(all[i] == rows[i - n1]);
        }
    }
    assert forall|i: int, j: int| 0 <= i < j < all.len() implies (#[trigger] all[i]).0 != (
    #[trigger] all[j]).0 || all[i].1 != all[j].1 by {
        if j < n0 {
            assert(raster.samples[i].0 != raster.samples[j].0 || raster.samples[i].1
                != raster.samples[j].1);
        } else if j < n1 {
            if n0 <= i {
                lemma_cell_split(i - n0, h, cw - w);
                lemma_cell_split(j - n0, h, cw - w);
            }
        } else {
            if n1 <= i {
                lemma_cell_split(i - n1, cw, ch - h);
                lemma_cell_split(j - n1, cw, ch - h);
            }
        }
    }
}

/// A raster that fits its cell renders to samples that tile the cell: for a
/// cell of `s x s` there are exactly `s * s` of them, no two at the same
/// place.
pub proof fn lemma_rendered_tiles(raster: RasterView)
    requires
        raster.wf(),
    ensures
        tiles(rendered_samples(raster), raster.cell_width as int, raster.cell_height as int),
        rendered_samples(raster).len() == raster.cell_width * raster.cell_height,
        distinct_coords(rendered_samples(raster)),
{
    lemma_rendered_regions(raster);
    let all = rendered_samples(raster);
    assert forall|i: int| 0 <= i < all.len() implies (#[trigger] all[i]).0 < raster.cell_width
        && all[i].1 < raster.cell_height by {
        if i < raster.samples.len() {
            assert(all[i] == raster.samples[i]);
        }
    }
}

/// Where no two samples share a place, the coverage at the place of a
/// sample is that sample's.
pub proof fn lemma_coverage_of_sample(samples: Seq<(u32, u32, Brightness)>, i: int)
    requires
        distinct_coords(samples),
        0 <= i < samples.len(),
    ensures
        has_sample_at(samples, samples[i].0 as int, samples[i].1 as int),
        coverage_at(samples, samples[i].0 as int, samples[i].1 as int) == samples[i].2,
{
    let x = samples[i].0 as int;
    let y = samples[i].1 as int;
    let j = choose|j: int|
        0 <= j < samples.len() && (#[trigger] samples[j]).0 == x && samples[j].1 == y;
    if j < i {
        assert(samples[j].0 != samples[i].0 || samples[j].1 != samples[i].1);
    } else if i < j {
        assert(samples[i].0 != samples[j].0 || samples[i].1 != samples[j].1);
    }
}

/// What a rendered glyph covers a pixel of its cell with: inside the
/// bounding box what the rasterizer drew there, and zero outside of it.
pub proof fn lemma_rendered_coverage(raster: RasterView, x: int, y: int)
    requires
        raster.wf(),
        0 <= x < raster.cell_width,
        0 <= y < raster.cell_height,
    ensures
        has_sample_at(rendered_samples(raster), x, y),
        coverage_at(rendered_samples(raster), x, y) == if x < raster.width && y < raster.height {
            coverage_at(raster.samples, x, y)
        } else {
            Brightness(0)
        },
{
    let all = rendered_samples(raster);
    lemma_rendered_regions(raster);
    lemma_rendered_tiles(raster);
    lemma_tiling_covers(all, raster.cell_width as int, raster.cell_height as int, x, y);
    let i = choose|i: int| 0 <= i < all.len() && (#[trigger] all[i]).0 == x && all[i].1 == y;
    lemma_coverage_of_sample(all, i);
    if x < raster.width && y < raster.height {
        lemma_tiling_covers(raster.samples, raster.width as int, raster.height as int, x, y);
        let j = choose|j: int|
            0 <= j < raster.samples.len() && (#[trigger] raster.samples[j]).0 == x
                && raster.samples[j].1 == y;
        lemma_coverage_of_sample(raster.samples, j);
        assert(all[j] == raster.samples[j]);
        if i < j {
            assert(all[i].0 != all[j].0 || all[i].1 != all[j].1);
        } else if j < i {
            assert(all[j].0 != all[i].0 || all[j].1 != all[i].1);
        }
    } else {
        if i < raster.samples.len() {
            assert(all[i] == raster.samples[i]);
            assert(raster.samples[i].0 < raster.width && raster.samples[i].1 < raster.height);
        }
    }
}

impl RenderedGlyph {
    /// The invariant: every value is well formed.
    #[verifier::type_invariant]
    pub open spec fn inv(&self) -> bool {
        self@.wf()
    }

    /// Renders a rasterized glyph into its cell: keeps what was drawn and
    /// gives every other pixel of the cell a zero sample.
    pub fn new(glyph: GlyphRaster) -> (r: Self)
        ensures
            r@.width == glyph@.cell_width,
            r@.height == glyph@.cell_height,
            r@.samples == rendered_samples(glyph@),
            r@.wf(),
    {
        proof {
            use_type_invariant(&glyph);
            lemma_rendered_tiles(glyph@);
        }
        let ghost raster = glyph@;
        let ghost cols = column_fill(
            raster.width as int,
            raster.height as int,
            raster.cell_width as int,
        );
        let ghost rows = row_fill(
            raster.height as int,
            raster.cell_width as int,
            raster.cell_height as int,
        );
        let GlyphRaster { cell_width, cell_height, width, height, samples } = glyph;
        let mut pts = samples;
        assert(0 <= (cell_width - width) * height && 0 <= (cell_height - height) * cell_width)
            by (nonlinear_arith)
            requires
                0 <= width <= cell_width,
                0 <= height <= cell_height,
        ;
        // The columns to the right of the bounding box.
        let mut x: u32 = width;
        while x < cell_width
            invariant
                width <= x <= cell_width,
                cols == column_fill(width as int, height as int, cell_width as int),
                cols.len() == (cell_width - width) * height,
                pts@ == raster.samples + cols.take((x - width) * height),
            decreases cell_width - x,
        {
            let mut y: u32 = 0;
            while y < height
                invariant
                    width <= x < cell_width,
                    y <= height,
                    cols == column_fill(width as int, height as int, cell_width as int),
                    cols.len() == (cell_width - width) * height,
                    pts@ == raster.samples + cols.take((x - width) * height + y),
                decreases height - y,
            {
                proof {
                    let k = (x - width) * height + y;
                    lemma_fundamental_div_mod_converse(k, height as int, x - width, y as int);
                    assert(k < (cell_width - width) * height) by (nonlinear_arith)
                        requires
                            k == (x - width) * height + y,
                            0 <= y < height,
                            width <= x < cell_width,
                    ;
                    assert(0 <= k) by (nonlinear_arith)
                        requires
                            k == (x - width) * height + y,
                            0 <= y,
                            0 <= height,
                            width <= x,
                    ;
                    assert(cols[k] == (x, y, Brightness(0)));
                    assert((raster.samples + cols.take(k)).push(cols[k]) =~= raster.samples
                        + cols.take(k + 1));
                }
                pts.push((x, y, Brightness::default()));
                y = y + 1;
            }
            proof {
                assert((x - width) * height + height == (x + 1 - width) * height)
                    by (nonlinear_arith);
            }
            x = x + 1;
        }
        assert(cols.take(cols.len() as int) =~= cols);
        // The rows below the bounding box.
        let mut y: u32 = height;
        while y < cell_height
            invariant
                height <= y <= cell_height,
                rows == row_fill(height as int, cell_width as int, cell_height as int),
                rows.len() == (cell_height - height) * cell_width,
                pts@ == raster.samples + cols + rows.take((y - height) * cell_width),
            decreases cell_height - y,
        {
            let mut x: u32 = 0;
            while x < cell_width
                invariant
                    height <= y < cell_height,
                    x <= cell_width,
                    rows == row_fill(height as int, cell_width as int, cell_height as int),
                    rows.len() == (cell_height - height) * cell_width,
                    pts@ == raster.samples + cols + rows.take((y - height) * cell_width + x),
                decreases cell_width - x,
            {
                proof {
                    let k = (y - height) * cell_width + x;
                    lemma_fundamental_div_mod_converse(k, cell_width as int, y - height, x as int);
                    assert(k < (cell_height - height) * cell_width) by (nonlinear_arith)
                        requires
                            k == (y - height) * cell_width + x,
                            0 <= x < cell_width,
                            height <= y < cell_height,
                    ;
                    assert(0 <= k) by (nonlinear_arith)
                        requires
                            k == (y - height) * cell_width + x,
                            0 <= x,
                            0 <= cell_width,
                            height <= y,
                    ;
                    assert(rows[k] == (x, y, Brightness(0)));
                    assert((raster.samples + cols + rows.take(k)).push(rows[k]) =~= raster.samples
                        + cols + rows.take(k + 1));
                }
                pts.push((x, y, Brightness::default()));
                x = x + 1;
            }
            proof {
                assert((y - height) * cell_width + cell_width == (y + 1 - height) * cell_width)
                    by (nonlinear_arith);
            }
            y = y + 1;
        }
        assert(rows.take(rows.len() as int) =~= rows);
        RenderedGlyph { samples: pts, width: cell_width, height: cell_height }
    }

    /// Width of the cell.
    pub fn width(&self) -> (r: u32)
        ensures
            r == self@.width,
    {
        self.width
    }

    /// Height of the cell.
    pub fn height(&self) -> (r: u32)
        ensures
            r == self@.height,
    {
        self.height
    }

    /// The samples `(x, y, coverage)`, relative to the cell's origin.
    pub fn samples(&self) -> (r: &[(u32, u32, Brightness)])
        ensures
            r@ == self@.samples,
            self@.wf(),
    {
        proof {
            use_type_invariant(self);
        }
        self.samples.as_slice()
    }
}

impl Clone for RenderedGlyph {
    fn clone(&self) -> (r: Self)
        ensures
            r@ == self@,
    {
        proof {
            use_type_invariant(self);
        }
        RenderedGlyph {
            samples: vstd::slice::slice_to_vec(self.samples.as_slice()),
            width: self.width,
            height: self.height,
        }
    }
}

} // verus!
