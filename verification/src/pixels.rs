use vstd::arithmetic::power2::{lemma_pow2_pos, pow2};
use vstd::prelude::*;
use vstd::slice::{slice_subrange, slice_to_vec};

use crate::brightness::Brightness;

verus! {

/// A pixel buffer as contracts see it: its size in pixels and its bytes, two
/// for each pixel in scan order, the first of each pair the pixel's luma.
pub struct PixelsView {
    /// Pixels in a row.
    pub width: u32,
    /// Number of rows.
    pub height: u32,
    /// The bytes of the buffer.
    pub bytes: Seq<u8>,
}

/// Offset of the luma byte of pixel `(x, y)` in a buffer of the given width.
pub open spec fn luma_offset(x: int, y: int, width: int) -> int {
    2 * (y * width + x)
}

impl PixelsView {
    /// The buffer holds two bytes for each of its pixels.
    pub open spec fn wf(self) -> bool {
        self.bytes.len() == 2 * self.width * self.height
    }

    /// The brightness of pixel `(x, y)`.
    pub open spec fn luma(self, x: int, y: int) -> Brightness {
        Brightness(self.bytes[luma_offset(x, y, self.width as int)])
    }

    /// Bytes in each of `2^n` equal strips.
    pub open spec fn strip_len(self, n: u32) -> int {
        2 * self.width * (self.height as int / pow2(n as nat) as int)
    }

    /// The `k`-th of `2^n` horizontal strips of equal height, counted from
    /// the top: the full width, and a contiguous range of the bytes.
    pub open spec fn strip(self, k: int, n: u32) -> PixelsView {
        PixelsView {
            width: self.width,
            height: (self.height as int / pow2(n as nat) as int) as u32,
            bytes: self.bytes.subrange(k * self.strip_len(n), (k + 1) * self.strip_len(n)),
        }
    }

    /// All `2^n` strips, from the top.
    pub open spec fn strips(self, n: u32) -> Seq<PixelsView> {
        Seq::new(pow2(n as nat), |k: int| self.strip(k, n))
    }

    /// The buffer with every byte set to `value`.
    pub open spec fn flattened(self, value: u8) -> PixelsView {
        PixelsView {
            width: self.width,
            height: self.height,
            bytes: Seq::new(self.bytes.len(), |i: int| value),
        }
    }
}

/// The bytes of the buffers one after another.
pub open spec fn concat_bytes(strips: Seq<PixelsView>) -> Seq<u8>
    decreases strips.len(),
{
    if strips.len() == 0 {
        Seq::empty()
    } else {
        concat_bytes(strips.drop_last()) + strips.last().bytes
    }
}

/// The rows of the buffers, added up.
pub open spec fn total_height(strips: Seq<PixelsView>) -> int
    decreases strips.len(),
{
    if strips.len() == 0 {
        0
    } else {
        total_height(strips.drop_last()) + strips.last().height
    }
}

/// Whether the buffers can be stacked into one: they have one width, and
/// their rows together can be counted.
pub open spec fn stackable(strips: Seq<PixelsView>) -> bool {
    &&& forall|k: int| 0 <= k < strips.len() ==> (#[trigger] strips[k]).width == strips[0].width
    &&& total_height(strips) <= u32::MAX
}

/// The buffers stacked from the top, in their order.
pub open spec fn stacked(strips: Seq<PixelsView>) -> PixelsView {
    PixelsView {
        width: if strips.len() == 0 {
            0
        } else {
            strips[0].width
        },
        height: total_height(strips) as u32,
        bytes: concat_bytes(strips),
    }
}

/// The neutral value that flattens a buffer to gray.
pub const NEUTRAL_GRAY: u8 = 127;

/// One frame, or a strip of one, in the packed 4:2:2 layout.
#[derive(Debug)]
pub struct Yuyv {
    buf: Vec<u8>,
    width: u32,
    height: u32,
}

impl View for Yuyv {
    type V = PixelsView;

    closed spec fn view(&self) -> PixelsView {
        PixelsView { width: self.width, height: self.height, bytes: self.buf@ }
    }
}

/// The views of a list of buffers.
pub open spec fn views(strips: Seq<Yuyv>) -> Seq<PixelsView> {
    strips.map_values(|s: Yuyv| s@)
}

proof fn lemma_offset_in_range(x: int, y: int, width: int, height: int)
    requires
        0 <= x < width,
        0 <= y < height,
    ensures
        0 <= y * width,
        y * width + x < width * height,
        0 <= luma_offset(x, y, width) < 2 * width * height - 1,
{
    assert(0 <= y * width && y * width + x < width * height) by (nonlinear_arith)
        requires
            0 <= x < width,
            0 <= y < height,
    ;
    assert(2 * width * height == 2 * (width * height)) by (nonlinear_arith);
}

proof fn lemma_strip_bounds(len: int, width: int, height: int, count: int, k: int)
    requires
        0 <= width,
        0 <= height,
        0 < count,
        height % count == 0,
        len == 2 * width * height,
        0 <= k < count,
    ensures
        0 <= k * (2 * width * (height / count)),
        (k + 1) * (2 * width * (height / count)) <= len,
        count * (2 * width * (height / count)) == len,
        0 <= 2 * width * (height / count),
        0 <= height / count <= height,
{
    let h = height / count;
    vstd::arithmetic::div_mod::lemma_fundamental_div_mod(height, count);
    assert(height == count * h);
    assert(0 <= h <= height) by (nonlinear_arith)
        requires
            height == count * h,
            0 < count,
            0 <= height,
    ;
    let s = 2 * width * h;
    assert(0 <= s) by (nonlinear_arith)
        requires
            s == 2 * width * h,
            0 <= width,
            0 <= h,
    ;
    assert(count * s == len) by (nonlinear_arith)
        requires
            s == 2 * width * h,
            len == 2 * width * height,
            height == count * h,
    ;
    assert(0 <= k * s && (k + 1) * s <= count * s) by (nonlinear_arith)
        requires
            0 <= k < count,
            0 <= s,
    ;
}

impl Yuyv {
    /// The invariant: every value is well formed.
    #[verifier::type_invariant]
    pub open spec fn inv(&self) -> bool {
        self@.wf()
    }

    /// Takes the bytes of a frame of `width x height` pixels.
    pub fn new(buf: Vec<u8>, width: u32, height: u32) -> (r: Self)
        requires
            buf@.len() == 2 * width * height,
        ensures
            r@ == (PixelsView { width, height, bytes: buf@ }),
            r@.wf(),
    {
        Yuyv { buf, width, height }
    }

    /// Pixels in a row.
    pub fn width(&self) -> (r: u32)
        ensures
            r == self@.width,
            self@.wf(),
    {
        proof {
            use_type_invariant(self);
        }
        self.width
    }

    /// Number of rows.
    pub fn height(&self) -> (r: u32)
        ensures
            r == self@.height,
            self@.wf(),
    {
        proof {
            use_type_invariant(self);
        }
        self.height
    }

    /// The bytes of the buffer.
    pub fn as_bytes(&self) -> (r: &[u8])
        ensures
            r@ == self@.bytes,
            self@.wf(),
    {
        proof {
            use_type_invariant(self);
        }
        self.buf.as_slice()
    }

    /// Gives the bytes back.
    pub fn into_bytes(self) -> (r: Vec<u8>)
        ensures
            r@ == self@.bytes,
            self@.wf(),
    {
        proof {
            use_type_invariant(&self);
        }
        self.buf
    }

    /// Splits the buffer into `2^n` horizontal strips of equal height, each of
    /// them the full width, in order of increasing row.
    pub fn splitn(&self, n: u32) -> (r: Vec<Yuyv>)
        requires
            n < 32,
            self@.height as int % pow2(n as nat) as int == 0,
        ensures
            views(r@) == self@.strips(n),
            forall|k: int| 0 <= k < r@.len() ==> (#[trigger] r@[k])@.wf(),
            self@.wf(),
    {
        proof {
            use_type_invariant(self);
            vstd::bits::lemma_u32_pow2_no_overflow(n as nat);
            vstd::bits::lemma_u32_shl_is_mul(1u32, n);
            lemma_pow2_pos(n as nat);
        }
        let count: u32 = 1u32 << n;
        let strip_height: u32 = self.height / count;
        proof {
            lemma_strip_bounds(
                self.buf@.len() as int,
                self.width as int,
                self.height as int,
                count as int,
                0,
            );
        }
        let len: usize = self.buf.len();
        let strip_len: usize = len / (count as usize);
        proof {
            let s = 2 * self.width * (self.height as int / count as int);
            vstd::arithmetic::div_mod::lemma_div_multiples_vanish(s, count as int);
            assert(count * s == s * count) by (nonlinear_arith);
        }
        let mut strips: Vec<Yuyv> = Vec::new();
        let mut k: u32 = 0;
        while k < count
            invariant
                k <= count,
                count == pow2(n as nat),
                self@.wf(),
                len == self.buf@.len(),
                strip_height == self.height as int / count as int,
                self.height as int % count as int == 0,
                strip_len == self@.strip_len(n),
                strips@.len() == k,
                forall|j: int| 0 <= j < k ==> (#[trigger] strips@[j])@ == self@.strip(j, n),
                forall|j: int| 0 <= j < k ==> (#[trigger] strips@[j])@.wf(),
            decreases count - k,
        {
            proof {
                lemma_strip_bounds(
                    self.buf@.len() as int,
                    self.width as int,
                    self.height as int,
                    count as int,
                    k as int,
                );
            }
            assert(k * strip_len + strip_len == (k + 1) * strip_len) by (nonlinear_arith);
            assert(0 <= k * strip_len && (k + 1) * strip_len <= len);
            let start: usize = (k as usize) * strip_len;
            let bytes = slice_to_vec(slice_subrange(self.buf.as_slice(), start, start + strip_len));
            strips.push(Yuyv { buf: bytes, width: self.width, height: strip_height });
            k = k + 1;
        }
        assert(views(strips@) =~= self@.strips(n));
        strips
    }

    /// Stacks buffers of one width into a single buffer, the first on top.
    pub fn join(strips: Vec<Yuyv>) -> (r: Self)
        requires
            stackable(views(strips@)),
        ensures
            r@ == stacked(views(strips@)),
            r@.wf(),
    {
        let ghost all = views(strips@);
        let width: u32 = if strips.len() == 0 {
            0
        } else {
            strips[0].width
        };
        let mut buf: Vec<u8> = Vec::new();
        let mut height: u32 = 0;
        let mut i: usize = 0;
        assert(all.take(0) =~= Seq::<PixelsView>::empty());
        while i < strips.len()
            invariant
                i <= strips.len(),
                all == views(strips@),
                stackable(all),
                width == stacked(all).width,
                buf@ == concat_bytes(all.take(i as int)),
                height == total_height(all.take(i as int)),
                buf@.len() == 2 * width * height,
            decreases strips.len() - i,
        {
            let strip = &strips[i];
            proof {
                use_type_invariant(strip);
                assert(all[i as int] == strip@);
                assert(all.take(i + 1).drop_last() =~= all.take(i as int));
                assert(all.take(i + 1).last() == all[i as int]);
                lemma_total_height_grows(all, i + 1);
                assert(2 * width * height + 2 * width * strip.height == 2 * width * (height
                    + strip.height)) by (nonlinear_arith);
            }
            let ghost before = buf@;
            buf.extend_from_slice(strip.buf.as_slice());
            assert(buf@ =~= before + strip.buf@);
            height = height + strip.height;
            i = i + 1;
        }
        assert(all.take(strips.len() as int) =~= all);
        Yuyv { buf, width, height }
    }

    /// The brightness of pixel `(x, y)`.
    pub fn get_brightness(&self, x: u32, y: u32) -> (b: Brightness)
        requires
            x < self@.width,
            y < self@.height,
        ensures
            b == self@.luma(x as int, y as int),
    {
        let idx = self.xy_to_idx(x, y);
        Brightness(self.buf[idx])
    }

    /// Writes the brightness of pixel `(x, y)`; no other byte changes.
    pub fn set_brightness(&mut self, x: u32, y: u32, b: Brightness)
        requires
            x < old(self)@.width,
            y < old(self)@.height,
        ensures
            final(self)@ == (PixelsView {
                bytes: old(self)@.bytes.update(
                    luma_offset(x as int, y as int, old(self)@.width as int),
                    b.0,
                ),
                ..old(self)@
            }),
            final(self)@.wf(),
    {
        proof {
            use_type_invariant(&*self);
        }
        let idx = self.xy_to_idx(x, y);
        self.buf[idx] = b.0;
    }

    /// Overwrites every byte, luma and chroma alike, with the neutral gray.
    pub fn as_grayscale(&mut self)
        ensures
            final(self)@ == old(self)@.flattened(NEUTRAL_GRAY),
            final(self)@.wf(),
    {
        proof {
            use_type_invariant(&*self);
        }
        let n = self.buf.len();
        let mut i: usize = 0;
        while i < n
            invariant
                i <= n,
                n == self.buf@.len(),
                n == old(self).buf@.len(),
                self.width == old(self).width,
                self.height == old(self).height,
                self@.wf(),
                forall|j: int| 0 <= j < i ==> self.buf@[j] == NEUTRAL_GRAY,
            decreases n - i,
        {
            self.buf[i] = NEUTRAL_GRAY;
            i = i + 1;
        }
        assert(self.buf@ =~= old(self)@.flattened(NEUTRAL_GRAY).bytes);
    }

    /// Offset of the luma byte of pixel `(x, y)`.
    pub fn xy_to_idx(&self, x: u32, y: u32) -> (idx: usize)
        requires
            x < self@.width,
            y < self@.height,
        ensures
            idx == luma_offset(x as int, y as int, self@.width as int),
            idx < self@.bytes.len(),
            self@.wf(),
    {
        proof {
            use_type_invariant(self);
            lemma_offset_in_range(x as int, y as int, self.width as int, self.height as int);
        }
        let len = self.buf.len();
        assert(y * self.width + x < len);
        let row: usize = (y as usize) * (self.width as usize);
        2 * (row + (x as usize))
    }
}

proof fn lemma_total_height_grows(strips: Seq<PixelsView>, m: int)
    requires
        0 <= m <= strips.len(),
    ensures
        0 <= total_height(strips.take(m)) <= total_height(strips),
    decreases strips.len() - m,
{
    lemma_total_height_nonnegative(strips.take(m));
    if m < strips.len() {
        lemma_total_height_grows(strips, m + 1);
        assert(strips.take(m + 1).drop_last() =~= strips.take(m));
    } else {
        assert(strips.take(m) =~= strips);
    }
}

proof fn lemma_total_height_nonnegative(strips: Seq<PixelsView>)
    ensures
        0 <= total_height(strips),
    decreases strips.len(),
{
    if strips.len() > 0 {
        lemma_total_height_nonnegative(strips.drop_last());
    }
}

/// Splitting a buffer into `2^n` strips and stacking the strips gives the
/// buffer back, byte for byte: the strips are disjoint ranges of its bytes
/// that follow one another and leave none out.
pub proof fn lemma_split_then_join(pixels: PixelsView, n: u32)
    requires
        pixels.wf(),
        pixels.height as int % pow2(n as nat) as int == 0,
    ensures
        pixels.strips(n).len() == pow2(n as nat),
        forall|k: int|
            0 <= k < pow2(n as nat) ==> (#[trigger] pixels.strips(n)[k]).wf()
                && pixels.strips(n)[k].bytes == pixels.bytes.subrange(
                k * pixels.strip_len(n),
                (k + 1) * pixels.strip_len(n),
            ),
        stackable(pixels.strips(n)),
        stacked(pixels.strips(n)) == pixels,
{
    let count = pow2(n as nat) as int;
    lemma_pow2_pos(n as nat);
    let strips = pixels.strips(n);
    let len = pixels.strip_len(n);
    let h = pixels.height as int / count;
    lemma_strip_bounds(
        pixels.bytes.len() as int,
        pixels.width as int,
        pixels.height as int,
        count,
        0,
    );
    assert forall|k: int| 0 <= k < count implies (#[trigger] strips[k]).wf() by {
        lemma_strip_bounds(
            pixels.bytes.len() as int,
            pixels.width as int,
            pixels.height as int,
            count,
            k,
        );
        assert((k + 1) * len - k * len == len) by (nonlinear_arith);
    }
    lemma_stack_prefix(pixels, n, count);
    assert(strips.take(count) =~= strips);
    assert(count * h == pixels.height) by {
        vstd::arithmetic::div_mod::lemma_fundamental_div_mod(pixels.height as int, count);
    }
    assert(pixels.bytes.subrange(0, count * len) =~= pixels.bytes);
    assert(stacked(strips) == pixels);
}

proof fn lemma_stack_prefix(pixels: PixelsView, n: u32, m: int)
    requires
        pixels.wf(),
        pixels.height as int % pow2(n as nat) as int == 0,
        0 <= m <= pow2(n as nat),
    ensures
        concat_bytes(pixels.strips(n).take(m)) == pixels.bytes.subrange(
            0,
            m * pixels.strip_len(n),
        ),
        total_height(pixels.strips(n).take(m)) == m * (pixels.height as int / pow2(
            n as nat,
        ) as int),
    decreases m,
{
    let count = pow2(n as nat) as int;
    let strips = pixels.strips(n);
    let len = pixels.strip_len(n);
    let h = pixels.height as int / count;
    if m == 0 {
        assert(strips.take(0) =~= Seq::<PixelsView>::empty());
        assert(pixels.bytes.subrange(0, 0 * len) =~= Seq::<u8>::empty());
    } else {
        lemma_stack_prefix(pixels, n, m - 1);
        lemma_strip_bounds(
            pixels.bytes.len() as int,
            pixels.width as int,
            pixels.height as int,
            count,
            m - 1,
        );
        assert(strips.take(m).drop_last() =~= strips.take(m - 1));
        assert(strips.take(m).last() == strips[m - 1]);
        assert(0 <= (m - 1) * len && (m - 1) * len + len == m * len) by (nonlinear_arith)
            requires
                0 <= len,
                1 <= m,
        ;
        assert(pixels.bytes.subrange(0, (m - 1) * len) + pixels.bytes.subrange(
            (m - 1) * len,
            m * len,
        ) =~= pixels.bytes.subrange(0, m * len));
        assert((m - 1) * h + h == m * h) by (nonlinear_arith);
    }
}

/// The rows of stacked buffers depend on the rows of each alone.
pub proof fn lemma_total_height_by_rows(a: Seq<PixelsView>, b: Seq<PixelsView>)
    requires
        a.len() == b.len(),
        forall|k: int| 0 <= k < a.len() ==> (#[trigger] a[k]).height == b[k].height,
    ensures
        total_height(a) == total_height(b),
    decreases a.len(),
{
    if a.len() > 0 {
        lemma_total_height_by_rows(a.drop_last(), b.drop_last());
        assert(a.last().height == b.last().height);
    }
}

/// Where a byte of stacked buffers of one length comes from: byte `i` is
/// byte `i % len` of buffer `i / len`.
pub proof fn lemma_concat_index(strips: Seq<PixelsView>, len: int, i: int)
    requires
        len > 0,
        forall|k: int| 0 <= k < strips.len() ==> (#[trigger] strips[k]).bytes.len() == len,
        0 <= i < strips.len() * len,
    ensures
        concat_bytes(strips).len() == strips.len() * len,
        0 <= i / len < strips.len(),
        0 <= i % len < len,
        concat_bytes(strips)[i] == strips[i / len].bytes[i % len],
    decreases strips.len(),
{
    let n = strips.len() as int;
    lemma_concat_len(strips, len);
    lemma_concat_len(strips.drop_last(), len);
    assert((n - 1) * len + len == n * len) by (nonlinear_arith);
    if i < (n - 1) * len {
        lemma_concat_index(strips.drop_last(), len, i);
        assert(strips.drop_last()[i / len] == strips[i / len]);
    } else {
        vstd::arithmetic::div_mod::lemma_fundamental_div_mod_converse(
            i,
            len,
            n - 1,
            i - (n - 1) * len,
        );
    }
}

proof fn lemma_concat_len(strips: Seq<PixelsView>, len: int)
    requires
        forall|k: int| 0 <= k < strips.len() ==> (#[trigger] strips[k]).bytes.len() == len,
    ensures
        concat_bytes(strips).len() == strips.len() * len,
    decreases strips.len(),
{
    let n = strips.len() as int;
    if n > 0 {
        lemma_concat_len(strips.drop_last(), len);
        assert((n - 1) * len + len == n * len) by (nonlinear_arith);
    } else {
        assert(0 * len == 0);
    }
}

} // verus!
