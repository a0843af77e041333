use vstd::arithmetic::div_mod::{lemma_fundamental_div_mod, lemma_fundamental_div_mod_converse};
use vstd::arithmetic::power2::{lemma2_to64, pow2};
use vstd::prelude::*;

use crate::average::{
    block_average, block_averages, block_end, block_number, block_origin, blocks_across,
    lemma_block_at, lemma_block_number, lemma_cell_of, lemma_same_cell,
    lemma_uniform_block_average,
};
use crate::brightness::Brightness;
use crate::frame::{frame_views, Frame, FrameFilter};
use crate::glyph::{
    coverage_at, distinct_coords, has_sample_at, lemma_coverage_of_sample, lemma_tiling_covers,
    GlyphRaster, GlyphView,
};
use crate::glyph_map::{
    glyph_map_of, raster_views, rasters_fit, resized, GlyphMap, GlyphMapView,
};
use crate::palette::{
    charset, charset_spec, lemma_charset_shape, lemma_index_in_range, palette_index,
    valid_palette_len, AsciiMap,
};
use crate::pixels::{
    lemma_concat_index, lemma_split_then_join, lemma_total_height_by_rows, luma_offset, stackable,
    stacked, PixelsView, NEUTRAL_GRAY,
};

verus! {

/// A frame is worked on in `2^NSUBFRAME_SPLITS` strips.
pub const NSUBFRAME_SPLITS: u32 = 4;

/// How the filter treats what it draws over.
#[derive(Debug, Clone, Copy, PartialEq, Eq, Structural)]
pub enum AsciiMode {
    /// Glyphs on a flat gray background.
    Grayscale,
    /// Glyphs over the colors of the picture.
    Color,
    /// As `Color`, with the palette reversed.
    Invert,
}

impl AsciiMode {
    /// The mode that follows in the cycle Grayscale, Color, Invert.
    pub open spec fn spec_next(self) -> Self {
        match self {
            AsciiMode::Grayscale => AsciiMode::Color,
            AsciiMode::Color => AsciiMode::Invert,
            AsciiMode::Invert => AsciiMode::Grayscale,
        }
    }

    /// The mode that follows in the cycle Grayscale, Color, Invert.
    pub fn next(self) -> (r: Self)
        ensures
            r == self.spec_next(),
    {
        match self {
            AsciiMode::Grayscale => AsciiMode::Color,
            AsciiMode::Color => AsciiMode::Invert,
            AsciiMode::Invert => AsciiMode::Grayscale,
        }
    }
}

/// The characters in the direction of a mode: reversed for `Invert`.
pub open spec fn directed(chars: Seq<char>, mode: AsciiMode) -> Seq<char> {
    if mode == AsciiMode::Invert {
        chars.reverse()
    } else {
        chars
    }
}

/// The bit depth that a change by `delta` asks for.
pub open spec fn requested_nbits(nbits: u32, delta: i32) -> int {
    nbits + delta
}

/// The palette that a change of the bit depth by `delta` asks for, if there
/// is one for that depth.
pub open spec fn requested_charset(nbits: u32, delta: i32) -> Option<Seq<char>> {
    let wanted = requested_nbits(nbits, delta);
    if 0 <= wanted <= u32::MAX {
        charset_spec(wanted as u32)
    } else {
        None
    }
}

/// A filter as contracts see it.
pub struct FilterView {
    /// The palette, in the direction of the mode.
    pub palette: Seq<char>,
    /// Bit depth of the palette.
    pub nbits: u32,
    /// The glyph cache.
    pub glyphs: GlyphMapView,
    /// The mode.
    pub mode: AsciiMode,
}

impl FilterView {
    /// The palette holds `2^nbits` characters, the cache is well formed, and
    /// it holds a glyph for every character of the palette.
    pub open spec fn wf(self) -> bool {
        &&& self.nbits <= 8
        &&& self.palette.len() == pow2(self.nbits as nat)
        &&& self.glyphs.wf()
        &&& self.glyphs.covers(self.palette)
    }

    /// The filter in the next mode; the palette is reversed when `Invert` is
    /// entered and when it is left.
    pub open spec fn cycled(self) -> FilterView {
        let next = self.mode.spec_next();
        FilterView {
            mode: next,
            palette: if self.mode == AsciiMode::Invert || next == AsciiMode::Invert {
                self.palette.reverse()
            } else {
                self.palette
            },
            ..self
        }
    }

    /// The glyph drawn over the block at `(x, y)`: that of the palette
    /// character for the block's mean brightness in the reference buffer.
    pub open spec fn block_glyph(self, reference: PixelsView, x: int, y: int) -> GlyphView {
        let mean = block_average(
            reference,
            x,
            y,
            self.glyphs.width as int,
            self.glyphs.height as int,
        );
        self.glyphs.glyphs[self.palette[palette_index(mean, self.nbits)]]
    }

    /// The brightness drawn at pixel `(x, y)`: the coverage that the glyph of
    /// the pixel's block has at the pixel's place in the cell.
    pub open spec fn ink(self, reference: PixelsView, x: int, y: int) -> Brightness {
        let left = block_origin(x, self.glyphs.width as int);
        let top = block_origin(y, self.glyphs.height as int);
        self.block_glyph(reference, left, top).coverage(x - left, y - top)
    }

    /// Byte `i` of a strip after drawing: the ink of its pixel where it is a
    /// luma byte, and the byte that was there where it is a chroma byte.
    pub open spec fn drawn_byte(self, reference: PixelsView, live: PixelsView, i: int) -> u8 {
        if i % 2 == 0 {
            self.ink(reference, (i / 2) % (live.width as int), (i / 2) / (live.width as int)).0
        } else {
            live.bytes[i]
        }
    }

    /// A strip after the glyphs chosen from the reference strip are drawn
    /// over the live strip.
    pub open spec fn drawn(self, reference: PixelsView, live: PixelsView) -> PixelsView {
        PixelsView {
            bytes: Seq::new(live.bytes.len(), |i: int| self.drawn_byte(reference, live, i)),
            ..live
        }
    }

    /// What the glyphs are drawn over: flat gray in `Grayscale`, and the
    /// picture itself otherwise.
    pub open spec fn background(self, frame: PixelsView) -> PixelsView {
        if self.mode == AsciiMode::Grayscale {
            frame.flattened(NEUTRAL_GRAY)
        } else {
            frame
        }
    }

    /// Strip `k` of a frame after the transform.
    pub open spec fn processed_strip(self, frame: PixelsView, k: int) -> PixelsView {
        self.drawn(
            frame.strip(k, NSUBFRAME_SPLITS),
            self.background(frame).strip(k, NSUBFRAME_SPLITS),
        )
    }

    /// A frame after the transform: its strips, each drawn over on its own,
    /// stacked again.
    pub open spec fn processed(self, frame: PixelsView) -> PixelsView {
        stacked(
            Seq::new(pow2(NSUBFRAME_SPLITS as nat), |k: int| self.processed_strip(frame, k)),
        )
    }
}

/// Cycling the mode three times gives back the mode and the palette.
pub proof fn lemma_cycle_thrice(filter: FilterView)
    ensures
        filter.cycled().cycled().cycled() == filter,
{
    assert(filter.palette.reverse().reverse() =~= filter.palette);
}

/// Turns frames into character art: every cell is drawn over with the glyph
/// of the palette character that stands for the cell's mean brightness.
#[derive(Debug)]
pub struct AsciiFilter {
    ascii_map: AsciiMap,
    glyphs: GlyphMap,
    mode: AsciiMode,
}

impl View for AsciiFilter {
    type V = FilterView;

    closed spec fn view(&self) -> FilterView {
        FilterView {
            palette: self.ascii_map@,
            nbits: self.ascii_map.spec_nbits(),
            glyphs: self.glyphs@,
            mode: self.mode,
        }
    }
}

proof fn lemma_reverse_covered(glyphs: GlyphMapView, chars: Seq<char>)
    requires
        glyphs.covers(chars),
    ensures
        glyphs.covers(chars.reverse()),
{
    assert forall|i: int| 0 <= i < chars.reverse().len() implies glyphs.glyphs.contains_key(
        #[trigger] chars.reverse()[i],
    ) by {
        assert(chars.reverse()[i] == chars[chars.len() - 1 - i]);
    }
}

/// The brightness of a pixel of the live strip once the first `k` blocks
/// are drawn.
spec fn luma_after_blocks(
    filter: FilterView,
    reference: PixelsView,
    start: PixelsView,
    k: int,
    x: int,
    y: int,
) -> Brightness {
    if block_number(
        x,
        y,
        filter.glyphs.width as int,
        filter.glyphs.height as int,
        start.width as int,
    ) < k {
        filter.ink(reference, x, y)
    } else {
        start.luma(x, y)
    }
}

/// The brightness of a pixel of the live strip once the first `k` blocks
/// and the first `j` samples of the glyph of block `k` are drawn.
spec fn luma_in_block(
    filter: FilterView,
    reference: PixelsView,
    start: PixelsView,
    k: int,
    samples: Seq<(u32, u32, Brightness)>,
    left: int,
    top: int,
    x: int,
    y: int,
) -> Brightness {
    let number = block_number(
        x,
        y,
        filter.glyphs.width as int,
        filter.glyphs.height as int,
        start.width as int,
    );
    if number < k {
        filter.ink(reference, x, y)
    } else if number == k && has_sample_at(samples, x - left, y - top) {
        coverage_at(samples, x - left, y - top)
    } else {
        start.luma(x, y)
    }
}

/// One more sample changes the coverage at its own place only.
proof fn lemma_next_sample(samples: Seq<(u32, u32, Brightness)>, j: int, x: int, y: int)
    requires
        distinct_coords(samples),
        0 <= j < samples.len(),
        samples[j].0 != x || samples[j].1 != y,
    ensures
        has_sample_at(samples.take(j + 1), x, y) == has_sample_at(samples.take(j), x, y),
        has_sample_at(samples.take(j), x, y) ==> coverage_at(samples.take(j + 1), x, y)
            == coverage_at(samples.take(j), x, y),
{
    let shorter = samples.take(j);
    let longer = samples.take(j + 1);
    assert(distinct_coords(longer));
    if has_sample_at(shorter, x, y) {
        let i = choose|i: int|
            0 <= i < shorter.len() && (#[trigger] shorter[i]).0 == x && shorter[i].1 == y;
        assert(longer[i] == shorter[i]);
        assert(longer[i].0 == x && longer[i].1 == y);
        lemma_coverage_of_sample(longer, i);
        assert(distinct_coords(shorter));
        lemma_coverage_of_sample(shorter, i);
    }
    if has_sample_at(longer, x, y) {
        let i = choose|i: int|
            0 <= i < longer.len() && (#[trigger] longer[i]).0 == x && longer[i].1 == y;
        assert(i != j);
        assert(shorter[i] == longer[i]);
        assert(shorter[i].0 == x && shorter[i].1 == y);
    }
}

/// Writing the luma of one pixel leaves every other pixel and every chroma
/// byte as it was.
proof fn lemma_luma_written(before: PixelsView, after: PixelsView, x: int, y: int, b: Brightness)
    requires
        before.wf(),
        0 <= x < before.width,
        0 <= y < before.height,
        after == (PixelsView {
            bytes: before.bytes.update(luma_offset(x, y, before.width as int), b.0),
            ..before
        }),
    ensures
        after.luma(x, y) == b,
        forall|u: int, v: int|
            0 <= u < before.width && 0 <= v < before.height && (u != x || v != y)
                ==> #[trigger] after.luma(u, v) == before.luma(u, v),
        forall|i: int|
            0 <= i < before.bytes.len() && i % 2 == 1 ==> #[trigger] after.bytes[i]
                == before.bytes[i],
{
    let w = before.width as int;
    let h = before.height as int;
    lemma_offset(x, y, w, h);
    assert forall|u: int, v: int|
        0 <= u < before.width && 0 <= v < before.height && (u != x || v != y)
            implies #[trigger] after.luma(u, v) == before.luma(u, v) by {
        lemma_offset(u, v, w, h);
        if luma_offset(u, v, w) == luma_offset(x, y, w) {
            assert(v * w + u == y * w + x);
            lemma_fundamental_div_mod_converse(v * w + u, w, v, u);
            lemma_fundamental_div_mod_converse(y * w + x, w, y, x);
        }
    }
}

proof fn lemma_offset(x: int, y: int, width: int, height: int)
    requires
        0 <= x < width,
        0 <= y < height,
    ensures
        0 <= luma_offset(x, y, width) < 2 * width * height,
        luma_offset(x, y, width) % 2 == 0,
        (luma_offset(x, y, width) / 2) % width == x,
        (luma_offset(x, y, width) / 2) / width == y,
{
    assert(0 <= y * width && y * width + x < width * height) by (nonlinear_arith)
        requires
            0 <= x < width,
            0 <= y < height,
    ;
    assert(2 * width * height == 2 * (width * height)) by (nonlinear_arith);
    lemma_fundamental_div_mod_converse(y * width + x, width, y, x);
}

/// The pixel that an even byte offset belongs to.
proof fn lemma_pixel_of(i: int, width: int, height: int)
    requires
        0 <= i < 2 * width * height,
        0 <= width,
        0 <= height,
        i % 2 == 0,
    ensures
        0 <= (i / 2) % width < width,
        0 <= (i / 2) / width < height,
        luma_offset((i / 2) % width, (i / 2) / width, width) == i,
{
    let p = i / 2;
    assert(2 * width * height == 2 * (width * height)) by (nonlinear_arith);
    assert(0 <= p < width * height);
    assert(width > 0) by (nonlinear_arith)
        requires
            0 <= p < width * height,
            0 <= width,
    ;
    lemma_fundamental_div_mod(p, width);
    let q = p / width;
    assert(width * q == q * width) by (nonlinear_arith);
    assert(0 <= q < height) by (nonlinear_arith)
        requires
            p == q * width + p % width,
            0 <= p % width < width,
            0 <= p < width * height,
            0 < width,
    ;
}

impl AsciiFilter {
    /// The invariant: every value is well formed.
    #[verifier::type_invariant]
    pub open spec fn inv(&self) -> bool {
        self@.wf()
    }

    /// Puts a palette, a glyph cache and a mode together; the palette is
    /// given in its plain order and reversed here for `Invert`.
    pub fn new(ascii_map: AsciiMap, glyphs: GlyphMap, mode: AsciiMode) -> (r: Self)
        requires
            glyphs@.covers(ascii_map@),
        ensures
            r@ == (FilterView {
                palette: directed(ascii_map@, mode),
                nbits: ascii_map.spec_nbits(),
                glyphs: glyphs@,
                mode,
            }),
            r@.wf(),
    {
        let mut ascii_map = ascii_map;
        let ghost plain = ascii_map@;
        proof {
            use_type_invariant(&ascii_map);
            use_type_invariant(&glyphs);
        }
        if mode == AsciiMode::Invert {
            ascii_map.invert();
            proof {
                lemma_reverse_covered(glyphs@, plain);
            }
        }
        AsciiFilter { ascii_map, glyphs, mode }
    }

    /// Moves to the next mode, and reverses the palette when `Invert` is
    /// entered and when it is left.
    pub fn cycle_mode(self) -> (r: Self)
        ensures
            r@ == self@.cycled(),
            r@.wf(),
    {
        proof {
            use_type_invariant(&self);
        }
        let AsciiFilter { ascii_map, glyphs, mode } = self;
        let mut ascii_map = ascii_map;
        let ghost plain = ascii_map@;
        let next = mode.next();
        if mode == AsciiMode::Invert || next == AsciiMode::Invert {
            ascii_map.invert();
            proof {
                lemma_reverse_covered(glyphs@, plain);
            }
        }
        AsciiFilter { ascii_map, glyphs, mode: next }
    }

    /// The mode.
    pub fn mode(&self) -> (r: AsciiMode)
        ensures
            r == self@.mode,
    {
        self.mode
    }

    /// Width and height of the cell.
    pub fn size(&self) -> (r: (u32, u32))
        ensures
            r == (self@.glyphs.width, self@.glyphs.height),
            self@.wf(),
    {
        proof {
            use_type_invariant(self);
        }
        (self.glyphs.width(), self.glyphs.height())
    }

    /// Bit depth of the palette.
    pub fn nbits(&self) -> (r: u32)
        ensures
            r == self@.nbits,
            self@.wf(),
    {
        proof {
            use_type_invariant(self);
        }
        self.ascii_map.nbits()
    }

    /// The palette, in the direction of the mode.
    pub fn chars(&self) -> (r: &[char])
        ensures
            r@ == self@.palette,
    {
        self.ascii_map.chars()
    }

    /// The glyph cache.
    pub fn glyphs(&self) -> (r: &GlyphMap)
        ensures
            r@ == self@.glyphs,
    {
        &self.glyphs
    }

    /// The cell size after a change by `inc`: the size at which `resize`
    /// wants the characters of the cache rasterized.
    pub fn resized_size(&self, inc: i32) -> (r: (u32, u32))
        ensures
            r.0 == resized(self@.glyphs.width, inc),
            r.1 == resized(self@.glyphs.height, inc),
            r.0 >= 1,
            r.1 >= 1,
    {
        self.glyphs.resized_size(inc)
    }

    /// Changes the cell size by `inc`, not below one pixel, and renders the
    /// glyphs anew from their rasters at the new size. Palette and mode stay.
    pub fn resize(self, inc: i32, rasters: Vec<GlyphRaster>) -> (r: Self)
        requires
            self@.glyphs.chars.len() == rasters@.len(),
            rasters_fit(
                raster_views(rasters@),
                resized(self@.glyphs.width, inc),
                resized(self@.glyphs.height, inc),
            ),
        ensures
            r@ == (FilterView {
                glyphs: glyph_map_of(
                    resized(self@.glyphs.width, inc),
                    resized(self@.glyphs.height, inc),
                    self@.glyphs.chars,
                    raster_views(rasters@),
                ),
                ..self@
            }),
            r@.wf(),
    {
        proof {
            use_type_invariant(&self);
        }
        let ghost before = self@;
        let AsciiFilter { ascii_map, glyphs, mode } = self;
        let glyphs = glyphs.resize(inc, rasters);
        proof {
            assert forall|i: int| 0 <= i < before.palette.len() implies glyphs@.glyphs.contains_key(
                #[trigger] before.palette[i],
            ) by {
                let c = before.palette[i];
                assert(before.glyphs.glyphs.contains_key(c));
                assert(before.glyphs.chars.contains(c));
            }
        }
        AsciiFilter { ascii_map, glyphs, mode }
    }

    /// Replaces the palette and renders the glyphs of its characters from
    /// their rasters at the cell size as it is. The characters are given in
    /// their plain order; the palette holds them in the direction of the mode.
    pub fn set_charset(self, chars: Vec<char>, rasters: Vec<GlyphRaster>) -> (r: Self)
        requires
            valid_palette_len(chars@.len()),
            chars@.len() == rasters@.len(),
            rasters_fit(raster_views(rasters@), self@.glyphs.width, self@.glyphs.height),
        ensures
            r@.palette == directed(chars@, self@.mode),
            r@.glyphs == glyph_map_of(
                self@.glyphs.width,
                self@.glyphs.height,
                chars@,
                raster_views(rasters@),
            ),
            r@.mode == self@.mode,
            r@.wf(),
    {
        proof {
            use_type_invariant(&self);
        }
        let AsciiFilter { ascii_map: _, glyphs, mode } = self;
        let glyphs = glyphs.set_charset(chars.as_slice(), rasters);
        let ascii_map = AsciiMap::new(chars);
        AsciiFilter::new(ascii_map, glyphs, mode)
    }

    /// The characters that a change of the bit depth by `delta` wants
    /// rasterized: the built-in palette of the new depth, or `None` where
    /// there is none for it.
    pub fn requested_charset(&self, delta: i32) -> (r: Option<Vec<char>>)
        ensures
            match r {
                Some(chars) => requested_charset(self@.nbits, delta) == Some(chars@),
                None => requested_charset(self@.nbits, delta) is None,
            },
    {
        let wanted: i64 = self.ascii_map.nbits() as i64 + delta as i64;
        if wanted < 0 || wanted > u32::MAX as i64 {
            None
        } else {
            charset(wanted as u32)
        }
    }

    /// Changes the bit depth of the palette by `delta`. Where the built-in
    /// palettes have one of the new depth, it becomes the palette, and its
    /// glyphs are rendered from the rasters; where they have none, as below 1
    /// and above 6, the filter stays as it is.
    pub fn change_bitdepth(self, delta: i32, rasters: Vec<GlyphRaster>) -> (r: Self)
        requires
            requested_charset(self@.nbits, delta) matches Some(chars) ==> chars.len()
                == rasters@.len() && rasters_fit(
                raster_views(rasters@),
                self@.glyphs.width,
                self@.glyphs.height,
            ),
        ensures
            match requested_charset(self@.nbits, delta) {
                Some(chars) => {
                    &&& r@.palette == directed(chars, self@.mode)
                    &&& r@.nbits == requested_nbits(self@.nbits, delta)
                    &&& r@.glyphs == glyph_map_of(
                        self@.glyphs.width,
                        self@.glyphs.height,
                        chars,
                        raster_views(rasters@),
                    )
                    &&& r@.mode == self@.mode
                },
                None => r@ == self@,
            },
            r@.wf(),
    {
        proof {
            use_type_invariant(&self);
        }
        let ghost before = self@;
        match self.requested_charset(delta) {
            Some(chars) => {
                proof {
                    lemma_charset_shape(requested_nbits(before.nbits, delta) as u32);
                }
                let r = self.set_charset(chars, rasters);
                proof {
                    lemma_depth_of_len(r@.nbits, requested_nbits(before.nbits, delta) as u32);
                    assert(directed(chars@, before.mode).len() == chars@.len());
                }
                r
            },
            None => self,
        }
    }

    /// The strips of a frame as the transform works on them: first those
    /// that are drawn over, flattened to gray in `Grayscale`, then those of
    /// the frame as it came, from which the glyphs are chosen.
    pub fn strips(&self, frame: &Frame) -> (r: (Vec<Frame>, Vec<Frame>))
        requires
            self.accepts(frame@.width, frame@.height),
        ensures
            frame_views(r.0@) == self@.background(frame@).strips(NSUBFRAME_SPLITS),
            frame_views(r.1@) == frame@.strips(NSUBFRAME_SPLITS),
            frame@.wf(),
    {
        let reference = frame.splitn(NSUBFRAME_SPLITS);
        let live = if self.mode == AsciiMode::Grayscale {
            let mut flat = frame.clone();
            flat.as_grayscale();
            flat.splitn(NSUBFRAME_SPLITS)
        } else {
            frame.splitn(NSUBFRAME_SPLITS)
        };
        (live, reference)
    }

    /// Draws over one strip: for every block of the reference strip, the
    /// glyph of the block's mean brightness goes into the live strip at the
    /// block's place, clipped at the strip's edges.
    pub fn process_strip(&self, subframe: &mut Frame, old_subframe: &Frame)
        requires
            old(subframe)@.width == old_subframe@.width,
            old(subframe)@.height == old_subframe@.height,
        ensures
            final(subframe)@ == self@.drawn(old_subframe@, old(subframe)@),
            final(subframe)@.wf(),
    {
        proof {
            use_type_invariant(self);
        }
        let ghost filter = self@;
        let ghost reference = old_subframe@;
        let ghost start = subframe@;
        let width = old_subframe.width();
        let height = subframe.height();
        let cell_width = self.glyphs.width();
        let cell_height = self.glyphs.height();
        let ghost all = block_averages(reference, cell_width as int, cell_height as int);
        let ghost across = blocks_across(width as int, cell_width as int);
        let mut blocks = old_subframe.pixels().iter_avg(cell_width, cell_height);
        let mut item = blocks.next();
        let ghost mut k: int = 0;
        proof {
            assert(all.skip(0) =~= all);
            assert forall|x: int, y: int| 0 <= x < width && 0 <= y < height implies block_number(
                x,
                y,
                cell_width as int,
                cell_height as int,
                width as int,
            ) >= 0 by {
                lemma_block_number(
                    x,
                    y,
                    cell_width as int,
                    cell_height as int,
                    width as int,
                    height as int,
                );
            }
        }
        while item.is_some()
            invariant
                filter == self@,
                filter.wf(),
                reference == old_subframe@,
                reference.wf(),
                start.wf(),
                subframe@.wf(),
                start.width == width,
                start.height == height,
                reference.width == width,
                reference.height == height,
                subframe@.width == width,
                subframe@.height == height,
                cell_width == filter.glyphs.width,
                cell_height == filter.glyphs.height,
                cell_width >= 1,
                cell_height >= 1,
                all == block_averages(reference, cell_width as int, cell_height as int),
                across == blocks_across(width as int, cell_width as int),
                blocks@.pixels == reference,
                blocks@.width == cell_width,
                blocks@.height == cell_height,
                blocks@.wf(),
                0 <= k <= all.len(),
                item is None ==> k == all.len(),
                item matches Some(block) ==> k < all.len() && block == all[k]
                    && blocks@.remaining() == all.skip(k + 1),
                forall|i: int|
                    0 <= i < start.bytes.len() && i % 2 == 1 ==> #[trigger] subframe@.bytes[i]
                        == start.bytes[i],
                forall|x: int, y: int|
                    0 <= x < width && 0 <= y < height ==> #[trigger] subframe@.luma(x, y)
                        == luma_after_blocks(filter, reference, start, k, x, y),
            decreases all.len() - k,
        {
            let (left, top, mean) = item.unwrap();
            proof {
                lemma_block_at(
                    reference,
                    cell_width as int,
                    cell_height as int,
                    k,
                );
                lemma_index_in_range(mean, filter.nbits);
            }
            let c = mean.as_ascii(&self.ascii_map);
            let found = self.glyphs.get(&c);
            assert(found is Some);
            let glyph = found.unwrap();
            let samples = glyph.samples();
            let ghost drawn = glyph@.samples;
            let mut j: usize = 0;
            proof {
                assert(drawn.take(0) =~= Seq::<(u32, u32, Brightness)>::empty());
                assert forall|x: int, y: int|
                    0 <= x < width && 0 <= y < height implies #[trigger] subframe@.luma(x, y)
                    == luma_in_block(
                    filter,
                    reference,
                    start,
                    k,
                    drawn.take(0),
                    left as int,
                    top as int,
                    x,
                    y,
                ) by {
                    assert(subframe@.luma(x, y) == luma_after_blocks(
                        filter,
                        reference,
                        start,
                        k,
                        x,
                        y,
                    ));
                }
            }
            while j < samples.len()
                invariant
                    j <= samples.len(),
                    samples@ == drawn,
                    drawn == glyph@.samples,
                    glyph@.wf(),
                    glyph@.width == cell_width,
                    glyph@.height == cell_height,
                    filter.wf(),
                    start.wf(),
                    subframe@.wf(),
                    start.width == width,
                    start.height == height,
                    subframe@.width == width,
                    subframe@.height == height,
                    cell_width == filter.glyphs.width,
                    cell_height == filter.glyphs.height,
                    cell_width >= 1,
                    cell_height >= 1,
                    left < width,
                    top < height,
                    left as int % cell_width as int == 0,
                    top as int % cell_height as int == 0,
                    left as int / cell_width as int == k % blocks_across(
                        width as int,
                        cell_width as int,
                    ),
                    top as int / cell_height as int == k / blocks_across(
                        width as int,
                        cell_width as int,
                    ),
                    across == blocks_across(width as int, cell_width as int),
                    0 <= k,
                    forall|i: int|
                        0 <= i < start.bytes.len() && i % 2 == 1 ==> #[trigger] subframe@.bytes[i]
                            == start.bytes[i],
                    forall|x: int, y: int|
                        0 <= x < width && 0 <= y < height ==> #[trigger] subframe@.luma(x, y)
                            == luma_in_block(
                            filter,
                            reference,
                            start,
                            k,
                            drawn.take(j as int),
                            left as int,
                            top as int,
                            x,
                            y,
                        ),
                decreases samples.len() - j,
            {
                let (xoff, yoff, b) = samples[j];
                let x: u64 = left as u64 + xoff as u64;
                let y: u64 = top as u64 + yoff as u64;
                let ghost before = subframe@;
                proof {
                    assert(drawn[j as int].0 < cell_width && drawn[j as int].1 < cell_height);
                    assert(drawn.take(j + 1)[j as int] == drawn[j as int]);
                    assert(distinct_coords(drawn.take(j + 1)));
                    lemma_coverage_of_sample(drawn.take(j + 1), j as int);
                }
                if x < width as u64 && y < height as u64 {
                    subframe.set_brightness(x as u32, y as u32, b);
                    proof {
                        lemma_luma_written(before, subframe@, x as int, y as int, b);
                        lemma_same_cell(x as int, cell_width as int, left as int);
                        lemma_same_cell(y as int, cell_height as int, top as int);
                        lemma_block_number(
                            x as int,
                            y as int,
                            cell_width as int,
                            cell_height as int,
                            width as int,
                            height as int,
                        );
                        lemma_fundamental_div_mod(k, across);
                        assert(across * (k / across) == (k / across) * across)
                            by (nonlinear_arith);
                    }
                }
                proof {
                    assert forall|u: int, v: int|
                        0 <= u < width && 0 <= v < height implies #[trigger] subframe@.luma(u, v)
                        == luma_in_block(
                        filter,
                        reference,
                        start,
                        k,
                        drawn.take(j + 1),
                        left as int,
                        top as int,
                        u,
                        v,
                    ) by {
                        assert(before.luma(u, v) == luma_in_block(
                            filter,
                            reference,
                            start,
                            k,
                            drawn.take(j as int),
                            left as int,
                            top as int,
                            u,
                            v,
                        ));
                        if u == x && v == y {
                        } else {
                            assert(subframe@.luma(u, v) == before.luma(u, v));
                            lemma_next_sample(
                                drawn,
                                j as int,
                                u - left as int,
                                v - top as int,
                            );
                        }
                    }
                }
                j = j + 1;
            }
            proof {
                assert(drawn.take(j as int) =~= drawn);
                assert forall|x: int, y: int|
                    0 <= x < width && 0 <= y < height implies #[trigger] subframe@.luma(x, y)
                    == luma_after_blocks(filter, reference, start, k + 1, x, y) by {
                    assert(subframe@.luma(x, y) == luma_in_block(
                        filter,
                        reference,
                        start,
                        k,
                        drawn,
                        left as int,
                        top as int,
                        x,
                        y,
                    ));
                    lemma_block_number(
                        x,
                        y,
                        cell_width as int,
                        cell_height as int,
                        width as int,
                        height as int,
                    );
                    let number = block_number(
                        x,
                        y,
                        cell_width as int,
                        cell_height as int,
                        width as int,
                    );
                    if number == k {
                        lemma_cell_of(x, cell_width as int);
                        lemma_cell_of(y, cell_height as int);
                        lemma_fundamental_div_mod(left as int, cell_width as int);
                        lemma_fundamental_div_mod(top as int, cell_height as int);
                        assert(cell_width * (left as int / cell_width as int) == (left as int
                            / cell_width as int) * cell_width) by (nonlinear_arith);
                        assert(cell_height * (top as int / cell_height as int) == (top as int
                            / cell_height as int) * cell_height) by (nonlinear_arith);
                        assert(block_origin(x, cell_width as int) == left);
                        assert(block_origin(y, cell_height as int) == top);
                        lemma_tiling_covers(
                            drawn,
                            cell_width as int,
                            cell_height as int,
                            x - left,
                            y - top,
                        );
                        assert(filter.block_glyph(reference, left as int, top as int) == glyph@);
                    }
                }
                k = k + 1;
            }
            item = blocks.next();
            proof {
                assert(all.skip(k).len() == all.len() - k);
                if k < all.len() {
                    assert(all.skip(k)[0] == all[k]);
                    assert(all.skip(k).skip(1) =~= all.skip(k + 1));
                }
            }
        }
        proof {
            let after = subframe@;
            let target = filter.drawn(reference, start);
            assert forall|i: int| 0 <= i < after.bytes.len() implies after.bytes[i]
                == target.bytes[i] by {
                if i % 2 == 0 {
                    lemma_pixel_of(i, width as int, height as int);
                    let x = (i / 2) % (width as int);
                    let y = (i / 2) / (width as int);
                    assert(after.luma(x, y) == luma_after_blocks(
                        filter,
                        reference,
                        start,
                        k,
                        x,
                        y,
                    ));
                    lemma_block_number(
                        x,
                        y,
                        cell_width as int,
                        cell_height as int,
                        width as int,
                        height as int,
                    );
                } else {
                    assert(after.bytes[i] == start.bytes[i]);
                }
            }
            assert(after.bytes =~= target.bytes);
        }
    }
}

impl Clone for AsciiFilter {
    fn clone(&self) -> (r: Self)
        ensures
            r@ == self@,
    {
        proof {
            use_type_invariant(self);
        }
        AsciiFilter {
            ascii_map: self.ascii_map.clone(),
            glyphs: self.glyphs.clone(),
            mode: self.mode,
        }
    }
}

impl FrameFilter for AsciiFilter {
    /// The filter takes frames whose rows divide evenly into the strips.
    open spec fn accepts(&self, width: u32, height: u32) -> bool {
        height as int % pow2(NSUBFRAME_SPLITS as nat) as int == 0
    }

    open spec fn transformed(&self, frame: PixelsView) -> PixelsView {
        self@.processed(frame)
    }

    /// Draws the frame over with glyphs: every strip is drawn over from its
    /// reference strip, on its own, and the strips are stacked again.
    fn process(&self, frame: &mut Frame) {
        proof {
            use_type_invariant(self);
            lemma2_to64();
        }
        let ghost filter = self@;
        let ghost before = frame@;
        let ghost ground = filter.background(before);
        let (subframes, old_subframes) = self.strips(frame);
        let ghost live = subframes@;
        let mut done: Vec<Frame> = Vec::new();
        let mut k: usize = 0;
        proof {
            assert(pow2(NSUBFRAME_SPLITS as nat) == 16);
            assert(frame_views(live).len() == live.len());
            assert(frame_views(old_subframes@).len() == old_subframes@.len());
            assert(ground.strips(NSUBFRAME_SPLITS).len() == 16);
            assert(before.strips(NSUBFRAME_SPLITS).len() == 16);
        }
        for strip in it: subframes.into_iter()
            invariant
                filter == self@,
                it.seq() == live,
                k == it.index(),
                live.len() == 16,
                old_subframes@.len() == 16,
                frame_views(live) == ground.strips(NSUBFRAME_SPLITS),
                frame_views(old_subframes@) == before.strips(NSUBFRAME_SPLITS),
                ground.width == before.width,
                ground.height == before.height,
                ground == filter.background(before),
                pow2(NSUBFRAME_SPLITS as nat) == 16,
                done@.len() == k,
                forall|i: int|
                    0 <= i < k ==> (#[trigger] done@[i])@ == filter.processed_strip(before, i),
        {
            let mut strip = strip;
            proof {
                assert(strip == live[k as int]);
                assert(frame_views(live)[k as int] == live[k as int]@);
                assert(frame_views(old_subframes@)[k as int] == old_subframes@[k as int]@);
                assert(ground.strips(NSUBFRAME_SPLITS)[k as int] == ground.strip(
                    k as int,
                    NSUBFRAME_SPLITS,
                ));
                assert(before.strips(NSUBFRAME_SPLITS)[k as int] == before.strip(
                    k as int,
                    NSUBFRAME_SPLITS,
                ));
                assert(ground == filter.background(before));
            }
            self.process_strip(&mut strip, &old_subframes[k]);
            proof {
                assert(strip@ == filter.processed_strip(before, k as int));
            }
            done.push(strip);
            k = k + 1;
        }
        proof {
            let strips = Seq::new(
                pow2(NSUBFRAME_SPLITS as nat),
                |i: int| filter.processed_strip(before, i),
            );
            assert(frame_views(done@) =~= strips);
            lemma_split_then_join(before, NSUBFRAME_SPLITS);
            lemma_total_height_by_rows(strips, before.strips(NSUBFRAME_SPLITS));
            assert(strips[0].width == before.width);
            assert(stackable(strips));
        }
        *frame = Frame::join(done);
    }
}

/// The transform pixel by pixel. A frame keeps its size. The luma of a
/// pixel becomes the ink that the glyphs of its strip put there, chosen from
/// the strip of the frame as it came; the chroma byte of a pixel is the one
/// of the background.
pub proof fn lemma_processed_pixel(filter: FilterView, frame: PixelsView, x: int, y: int)
    requires
        frame.wf(),
        frame.height as int % pow2(NSUBFRAME_SPLITS as nat) as int == 0,
        0 <= x < frame.width,
        0 <= y < frame.height,
    ensures
        ({
            let rows = frame.height as int / pow2(NSUBFRAME_SPLITS as nat) as int;
            let after = filter.processed(frame);
            let at = luma_offset(x, y, frame.width as int);
            &&& after.width == frame.width
            &&& after.height == frame.height
            &&& after.wf()
            &&& rows > 0
            &&& after.luma(x, y) == filter.ink(frame.strip(y / rows, NSUBFRAME_SPLITS), x, y % rows)
            &&& 0 <= at
            &&& at + 1 < after.bytes.len()
            &&& after.bytes[at + 1] == filter.background(frame).bytes[at + 1]
        }),
{
    lemma2_to64();
    let n = NSUBFRAME_SPLITS;
    let w = frame.width as int;
    let h = frame.height as int;
    let rows = h / 16;
    let ground = filter.background(frame);
    let strips = Seq::new(pow2(n as nat), |k: int| filter.processed_strip(frame, k));
    let after = filter.processed(frame);
    lemma_split_then_join(frame, n);
    lemma_split_then_join(ground, n);
    lemma_total_height_by_rows(strips, frame.strips(n));
    lemma_fundamental_div_mod(h, 16);
    assert(rows > 0);
    let len = frame.strip_len(n);
    assert(len == 2 * w * rows);
    assert(len > 0 && 16 * len == 2 * w * h) by (nonlinear_arith)
        requires
            len == 2 * w * rows,
            w > 0,
            rows > 0,
            h == 16 * rows,
    ;
    assert forall|k: int| 0 <= k < strips.len() implies (#[trigger] strips[k]).bytes.len()
        == len by {
        assert(ground.strips(n)[k].wf());
        assert(ground.strips(n)[k] == ground.strip(k, n));
    }
    // Where the pixel lies: strip `k`, row `row` of it.
    lemma_fundamental_div_mod(y, rows);
    let k = y / rows;
    let row = y % rows;
    assert(0 <= k < 16) by (nonlinear_arith)
        requires
            y == rows * k + row,
            0 <= row < rows,
            0 <= y < h,
            h == 16 * rows,
    ;
    let at = luma_offset(x, y, w);
    let inner = luma_offset(x, row, w);
    assert(at == k * len + inner) by (nonlinear_arith)
        requires
            at == 2 * (y * w + x),
            inner == 2 * (row * w + x),
            len == 2 * w * rows,
            y == rows * k + row,
    ;
    assert(0 <= inner && inner + 1 < len) by (nonlinear_arith)
        requires
            inner == 2 * (row * w + x),
            len == 2 * w * rows,
            0 <= x < w,
            0 <= row < rows,
    ;
    assert(0 <= k * len && (k + 1) * len <= 16 * len) by (nonlinear_arith)
        requires
            0 <= k < 16,
            len > 0,
    ;
    lemma_fundamental_div_mod_converse(at, len, k, inner);
    lemma_fundamental_div_mod_converse(at + 1, len, k, inner + 1);
    assert((k + 1) * len == k * len + len) by (nonlinear_arith);
    assert(strips.len() == 16);
    assert(strips.len() * len == 16 * len);
    assert(ground.bytes.len() == 16 * len);
    lemma_concat_index(strips, len, at);
    lemma_concat_index(strips, len, at + 1);
    let strip = strips[k];
    assert(strip == filter.drawn(frame.strip(k, n), ground.strip(k, n)));
    // The luma byte.
    lemma_fundamental_div_mod_converse(row * w + x, w, row, x);
    assert(inner / 2 == row * w + x);
    assert(strip.bytes[inner] == filter.drawn_byte(frame.strip(k, n), ground.strip(k, n), inner));
    // The chroma byte.
    assert(strip.bytes[inner + 1] == ground.strip(k, n).bytes[inner + 1]);
    assert(ground.strip(k, n).bytes[inner + 1] == ground.bytes[k * len + inner + 1]);
    assert(strips[0].width == frame.width);
}

/// Over a reference strip of one brightness every block gets the glyph of
/// that brightness: the ink of a pixel is the coverage that the glyph of the
/// palette character for `v` has at the pixel's place in its cell.
pub proof fn lemma_uniform_reference(
    filter: FilterView,
    reference: PixelsView,
    v: u8,
    x: int,
    y: int,
)
    requires
        filter.glyphs.width >= 1,
        filter.glyphs.height >= 1,
        0 <= x < reference.width,
        0 <= y < reference.height,
        forall|u: int, w: int|
            0 <= u < reference.width && 0 <= w < reference.height ==> (#[trigger] reference.luma(
                u,
                w,
            )).0 == v,
    ensures
        filter.ink(reference, x, y) == filter.glyphs.glyphs[filter.palette[palette_index(
            Brightness(v),
            filter.nbits,
        )]].coverage(
            x - block_origin(x, filter.glyphs.width as int),
            y - block_origin(y, filter.glyphs.height as int),
        ),
{
    let cell_width = filter.glyphs.width as int;
    let cell_height = filter.glyphs.height as int;
    let left = block_origin(x, cell_width);
    let top = block_origin(y, cell_height);
    lemma_cell_of(x, cell_width);
    lemma_cell_of(y, cell_height);
    let right = block_end(left, cell_width, reference.width as int);
    let bottom = block_end(top, cell_height, reference.height as int);
    lemma_uniform_block_average(reference, left, right, top, bottom, v);
}

/// A change of the bit depth finds a palette exactly where the new depth
/// lies between 1 and 6; everywhere else `change_bitdepth` changes nothing.
pub proof fn lemma_requested_charset(nbits: u32, delta: i32)
    ensures
        requested_charset(nbits, delta) is Some <==> 1 <= nbits + delta <= 6,
{
}

/// The bit depth of a palette is fixed by the number of its characters.
proof fn lemma_depth_of_len(a: u32, b: u32)
    requires
        a <= 8,
        b <= 8,
        pow2(a as nat) == pow2(b as nat),
    ensures
        a == b,
{
    lemma2_to64();
}

} // verus!
