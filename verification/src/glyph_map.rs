use std::collections::HashMap;
use vstd::prelude::*;

use crate::glyph::{rendered_samples, GlyphRaster, GlyphView, RasterView, RenderedGlyph};

verus! {

/// Cell size of a glyph cache that was given none.
pub const DEFAULT_FONT_SCALE: u32 = 10;

/// The views of a list of rasters.
pub open spec fn raster_views(rasters: Seq<GlyphRaster>) -> Seq<RasterView> {
    rasters.map_values(|r: GlyphRaster| r@)
}

/// A raster rendered into its cell.
pub open spec fn rendered(raster: RasterView) -> GlyphView {
    GlyphView {
        width: raster.cell_width,
        height: raster.cell_height,
        samples: rendered_samples(raster),
    }
}

/// Every raster was made for a cell of `width x height`.
pub open spec fn rasters_fit(rasters: Seq<RasterView>, width: u32, height: u32) -> bool {
    forall|i: int|
        0 <= i < rasters.len() ==> (#[trigger] rasters[i]).wf() && rasters[i].cell_width == width
            && rasters[i].cell_height == height
}

/// The glyphs of the characters, each rendered from the raster at its place;
/// where a character comes twice its last raster counts.
pub open spec fn rendered_map(chars: Seq<char>, rasters: Seq<RasterView>) -> Map<char, GlyphView>
    decreases chars.len(),
{
    if chars.len() == 0 {
        Map::empty()
    } else {
        rendered_map(chars.drop_last(), rasters.drop_last()).insert(
            chars.last(),
            rendered(rasters.last()),
        )
    }
}

/// A glyph cache as contracts see it.
pub struct GlyphMapView {
    /// Width of the cell.
    pub width: u32,
    /// Height of the cell.
    pub height: u32,
    /// The characters the cache was built for, in the order given.
    pub chars: Seq<char>,
    /// The glyph of each character.
    pub glyphs: Map<char, GlyphView>,
}

impl GlyphMapView {
    /// The cell is not empty, the cache holds a glyph for each of its
    /// characters and for no other, and every glyph tiles the cell.
    pub open spec fn wf(self) -> bool {
        &&& self.width >= 1
        &&& self.height >= 1
        &&& forall|c: char| self.glyphs.contains_key(c) <==> self.chars.contains(c)
        &&& forall|c: char| #[trigger]
            self.glyphs.contains_key(c) ==> self.glyphs[c].wf() && self.glyphs[c].width
                == self.width && self.glyphs[c].height == self.height
    }

    /// Whether the cache holds a glyph for each of the characters.
    pub open spec fn covers(self, chars: Seq<char>) -> bool {
        forall|i: int| 0 <= i < chars.len() ==> self.glyphs.contains_key(#[trigger] chars[i])
    }
}

/// The cache for the characters at a cell size, from their rasters.
pub open spec fn glyph_map_of(
    width: u32,
    height: u32,
    chars: Seq<char>,
    rasters: Seq<RasterView>,
) -> GlyphMapView {
    GlyphMapView { width, height, chars, glyphs: rendered_map(chars, rasters) }
}

/// A cell size changed by `inc`, kept between 1 and the largest size.
pub open spec fn resized(size: u32, inc: i32) -> u32 {
    if size + inc < 1 {
        1
    } else if size + inc > u32::MAX {
        u32::MAX
    } else {
        (size + inc) as u32
    }
}

/// The rendered glyph of each character of a palette, at one cell size.
#[derive(Debug)]
pub struct GlyphMap {
    chars: Vec<char>,
    glyphs: HashMap<u32, RenderedGlyph>,
    width: u32,
    height: u32,
}

impl View for GlyphMap {
    type V = GlyphMapView;

    closed spec fn view(&self) -> GlyphMapView {
        GlyphMapView {
            width: self.width,
            height: self.height,
            chars: self.chars@,
            glyphs: glyph_views(self.glyphs@),
        }
    }
}

/// The glyphs of a table keyed by code point, by character.
spec fn glyph_views(glyphs: Map<u32, RenderedGlyph>) -> Map<char, GlyphView> {
    Map::new(|c: char| glyphs.contains_key(c as u32), |c: char| glyphs[c as u32]@)
}

proof fn lemma_code_points_differ(a: char, b: char)
    requires
        a != b,
    ensures
        a as u32 != b as u32,
{
    vstd::utf8::char_u32_cast(a, a as u32);
    vstd::utf8::char_u32_cast(b, b as u32);
}

/// What the rendered map holds: a glyph for each of the characters and for no
/// other, each rendered from a raster of the list.
pub proof fn lemma_rendered_map(chars: Seq<char>, rasters: Seq<RasterView>, c: char)
    requires
        chars.len() == rasters.len(),
    ensures
        rendered_map(chars, rasters).contains_key(c) <==> chars.contains(c),
        rendered_map(chars, rasters).contains_key(c) ==> exists|i: int|
            0 <= i < chars.len() && chars[i] == c && rendered_map(chars, rasters)[c] == rendered(
                #[trigger] rasters[i],
            ),
    decreases chars.len(),
{
    if chars.len() > 0 {
        let n = chars.len() - 1;
        lemma_rendered_map(chars.drop_last(), rasters.drop_last(), c);
        if chars.last() == c {
            assert(chars[n] == c);
            assert(rendered_map(chars, rasters)[c] == rendered(rasters[n]));
        } else if chars.drop_last().contains(c) {
            let i = choose|i: int|
                0 <= i < n && chars.drop_last()[i] == c && rendered_map(
                    chars.drop_last(),
                    rasters.drop_last(),
                )[c] == rendered(#[trigger] rasters.drop_last()[i]);
            assert(chars[i] == c);
            assert(rasters.drop_last()[i] == rasters[i]);
            assert(rendered_map(chars, rasters)[c] == rendered(rasters[i]));
        } else {
            if chars.contains(c) {
                let i = choose|i: int| 0 <= i < chars.len() && chars[i] == c;
                assert(chars.drop_last()[i] == c);
            }
        }
    }
}

/// Where no character comes twice, the glyph of each is rendered from the
/// raster at the character's place.
pub proof fn lemma_rendered_map_entry(chars: Seq<char>, rasters: Seq<RasterView>, i: int)
    requires
        chars.len() == rasters.len(),
        chars.no_duplicates(),
        0 <= i < chars.len(),
    ensures
        rendered_map(chars, rasters).contains_key(chars[i]),
        rendered_map(chars, rasters)[chars[i]] == rendered(rasters[i]),
{
    lemma_rendered_map(chars, rasters, chars[i]);
    assert(chars.contains(chars[i]));
}

/// A cache made from rasters that fit its cell is well formed.
pub proof fn lemma_glyph_map_wf(
    width: u32,
    height: u32,
    chars: Seq<char>,
    rasters: Seq<RasterView>,
)
    requires
        width >= 1,
        height >= 1,
        chars.len() == rasters.len(),
        rasters_fit(rasters, width, height),
    ensures
        glyph_map_of(width, height, chars, rasters).wf(),
        glyph_map_of(width, height, chars, rasters).covers(chars),
{
    let m = glyph_map_of(width, height, chars, rasters);
    assert forall|c: char| m.glyphs.contains_key(c) <==> m.chars.contains(c) by {
        lemma_rendered_map(chars, rasters, c);
    }
    assert forall|c: char| #[trigger] m.glyphs.contains_key(c) implies m.glyphs[c].wf()
        && m.glyphs[c].width == width && m.glyphs[c].height == height by {
        lemma_rendered_map(chars, rasters, c);
        let i = choose|i: int|
            0 <= i < chars.len() && chars[i] == c && rendered_map(chars, rasters)[c] == rendered(
                #[trigger] rasters[i],
            );
        assert(rasters[i].wf());
        crate::glyph::lemma_rendered_tiles(rasters[i]);
    }
    assert forall|i: int| 0 <= i < chars.len() implies m.glyphs.contains_key(
        #[trigger] chars[i],
    ) by {
        lemma_rendered_map(chars, rasters, chars[i]);
        assert(chars.contains(chars[i]));
    }
}

impl GlyphMap {
    /// The invariant: every value is well formed.
    #[verifier::type_invariant]
    pub open spec fn inv(&self) -> bool {
        self@.wf()
    }

    /// Builds the cache for the characters at a cell of `width x height`,
    /// rendering for each character the raster at its place.
    pub fn new(width: u32, height: u32, chars: &[char], rasters: Vec<GlyphRaster>) -> (r: Self)
        requires
            width >= 1,
            height >= 1,
            chars@.len() == rasters@.len(),
            rasters_fit(raster_views(rasters@), width, height),
        ensures
            r@ == glyph_map_of(width, height, chars@, raster_views(rasters@)),
            r@.wf(),
            r@.covers(chars@),
    {
        let ghost all = raster_views(rasters@);
        let mut kept: Vec<char> = Vec::new();
        let mut glyphs: HashMap<u32, RenderedGlyph> = HashMap::new();
        let mut i: usize = 0;
        let ghost mut built = Map::<char, GlyphView>::empty();
        assert(chars@.take(0) =~= Seq::<char>::empty());
        for raster in it: rasters.into_iter()
            invariant
                i == it.index(),
                it.seq().len() == chars@.len(),
                all.len() == chars@.len(),
                forall|j: int| 0 <= j < all.len() ==> (#[trigger] it.seq()[j])@ == all[j],
                rasters_fit(all, width, height),
                kept@ == chars@.take(i as int),
                built == rendered_map(chars@.take(i as int), all.take(i as int)),
                forall|c: char|
                    glyphs@.contains_key(c as u32) <==> #[trigger] built.contains_key(c),
                forall|c: char|
                    glyphs@.contains_key(c as u32) ==> glyphs@[c as u32]@ == #[trigger] built[c],
        {
            let c = chars[i];
            let ghost before = glyphs@;
            proof {
                assert(raster@ == all[i as int]);
                assert(chars@.take(i + 1).drop_last() =~= chars@.take(i as int));
                assert(all.take(i + 1).drop_last() =~= all.take(i as int));
                assert(chars@.take(i + 1).last() == c);
                assert(all.take(i + 1).last() == all[i as int]);
            }
            let glyph = RenderedGlyph::new(raster);
            glyphs.insert(c as u32, glyph);
            kept.push(c);
            proof {
                assert(kept@ =~= chars@.take(i + 1));
                let grown = rendered_map(chars@.take(i + 1), all.take(i + 1));
                assert forall|d: char| glyphs@.contains_key(d as u32) <==> #[trigger]
                    grown.contains_key(d) by {
                    if d != c {
                        lemma_code_points_differ(d, c);
                    }
                }
                assert forall|d: char| glyphs@.contains_key(d as u32) implies glyphs@[d as u32]@
                    == #[trigger] grown[d] by {
                    if d != c {
                        lemma_code_points_differ(d, c);
                    }
                }
                built = grown;
            }
            i = i + 1;
        }
        proof {
            assert(chars@.take(i as int) =~= chars@);
            assert(all.take(i as int) =~= all);
            lemma_glyph_map_wf(width, height, chars@, all);
            assert(glyph_views(glyphs@) =~= rendered_map(chars@, all));
        }
        GlyphMap { chars: kept, glyphs, width, height }
    }

    /// The glyph of a character, if the cache holds one.
    pub fn get(&self, c: &char) -> (r: Option<&RenderedGlyph>)
        ensures
            self@.wf(),
            match r {
                Some(glyph) => self@.glyphs.contains_key(*c) && glyph@ == self@.glyphs[*c]
                    && glyph@.wf(),
                None => !self@.glyphs.contains_key(*c),
            },
    {
        proof {
            use_type_invariant(self);
        }
        let key = *c as u32;
        let r = self.glyphs.get(&key);
        proof {
            if let Some(glyph) = r {
                assert(self@.glyphs.contains_key(*c));
            }
        }
        r
    }

    /// Whether the cache holds a glyph for each of the characters.
    pub fn covers(&self, chars: &[char]) -> (r: bool)
        ensures
            r == self@.covers(chars@),
    {
        let mut i: usize = 0;
        while i < chars.len()
            invariant
                i <= chars.len(),
                forall|j: int| 0 <= j < i ==> self@.glyphs.contains_key(#[trigger] chars@[j]),
            decreases chars.len() - i,
        {
            if self.get(&chars[i]).is_none() {
                return false;
            }
            i = i + 1;
        }
        true
    }

    /// Width of the cell.
    pub fn width(&self) -> (r: u32)
        ensures
            r == self@.width,
            r >= 1,
            self@.wf(),
    {
        proof {
            use_type_invariant(self);
        }
        self.width
    }

    /// Height of the cell.
    pub fn height(&self) -> (r: u32)
        ensures
            r == self@.height,
            r >= 1,
            self@.wf(),
    {
        proof {
            use_type_invariant(self);
        }
        self.height
    }

    /// The characters the cache was built for, in the order given.
    pub fn chars(&self) -> (r: &[char])
        ensures
            r@ == self@.chars,
    {
        self.chars.as_slice()
    }

    /// The cell size after a change by `inc`: the size at which `resize`
    /// wants the characters rasterized.
    pub fn resized_size(&self, inc: i32) -> (r: (u32, u32))
        ensures
            r.0 == resized(self@.width, inc),
            r.1 == resized(self@.height, inc),
            r.0 >= 1,
            r.1 >= 1,
    {
        (add_signed(self.width, inc), add_signed(self.height, inc))
    }

    /// Changes the cell size by `inc`, not below one pixel, and renders every
    /// character anew from its raster at the new size.
    pub fn resize(self, inc: i32, rasters: Vec<GlyphRaster>) -> (r: Self)
        requires
            self@.chars.len() == rasters@.len(),
            rasters_fit(
                raster_views(rasters@),
                resized(self@.width, inc),
                resized(self@.height, inc),
            ),
        ensures
            r@ == glyph_map_of(
                resized(self@.width, inc),
                resized(self@.height, inc),
                self@.chars,
                raster_views(rasters@),
            ),
            r@.wf(),
            r@.covers(self@.chars),
    {
        let (width, height) = self.resized_size(inc);
        GlyphMap::new(width, height, self.chars.as_slice(), rasters)
    }

    /// Renders the cache anew for another set of characters, at the same
    /// cell size.
    pub fn set_charset(self, chars: &[char], rasters: Vec<GlyphRaster>) -> (r: Self)
        requires
            chars@.len() == rasters@.len(),
            rasters_fit(raster_views(rasters@), self@.width, self@.height),
        ensures
            r@ == glyph_map_of(self@.width, self@.height, chars@, raster_views(rasters@)),
            r@.wf(),
            r@.covers(chars@),
    {
        proof {
            use_type_invariant(&self);
        }
        GlyphMap::new(self.width, self.height, chars, rasters)
    }
}

/// A size changed by `inc`, kept between 1 and the largest size.
fn add_signed(size: u32, inc: i32) -> (r: u32)
    ensures
        r == resized(size, inc),
        r >= 1,
{
    let sum: i64 = size as i64 + inc as i64;
    if sum < 1 {
        1
    } else if sum > u32::MAX as i64 {
        u32::MAX
    } else {
        sum as u32
    }
}

impl Clone for GlyphMap {
    fn clone(&self) -> (r: Self)
        ensures
            r@ == self@,
    {
        proof {
            use_type_invariant(self);
        }
        GlyphMap {
            chars: vstd::slice::slice_to_vec(self.chars.as_slice()),
            glyphs: self.glyphs.clone(),
            width: self.width,
            height: self.height,
        }
    }
}

/// What a builder has been told so far.
pub struct BuilderView {
    /// Path of the font file, if one was named.
    pub font: Option<Seq<char>>,
    /// Cell size, if one was given.
    pub size: Option<u32>,
    /// The characters to render.
    pub chars: Seq<char>,
}

impl BuilderView {
    /// The cell size the cache will have: the one given, or the default.
    pub open spec fn cell_size(self) -> u32 {
        match self.size {
            Some(size) => size,
            None => DEFAULT_FONT_SCALE,
        }
    }
}

/// Collects the font, the cell size and the characters of a glyph cache.
pub struct GlyphMapBuilder<'chars> {
    font: Option<String>,
    size: Option<u32>,
    chars: &'chars [char],
}

impl<'chars> View for GlyphMapBuilder<'chars> {
    type V = BuilderView;

    closed spec fn view(&self) -> BuilderView {
        BuilderView {
            font: match self.font {
                Some(path) => Some(path@),
                None => None,
            },
            size: self.size,
            chars: self.chars@,
        }
    }
}

impl<'chars> GlyphMapBuilder<'chars> {
    /// Starts a cache for the characters, with the built-in font at the
    /// default size.
    pub fn new(chars: &'chars [char]) -> (r: Self)
        ensures
            r@ == (BuilderView { font: None, size: None, chars: chars@ }),
    {
        GlyphMapBuilder { font: None, size: None, chars }
    }

    /// Names the font file to take the glyphs from.
    pub fn with_font(self, font: String) -> (r: Self)
        ensures
            r@ == (BuilderView { font: Some(font@), ..self@ }),
    {
        GlyphMapBuilder { font: Some(font), size: self.size, chars: self.chars }
    }

    /// Names the font file if there is one, and changes nothing otherwise.
    pub fn with_font_or_default(self, font: Option<String>) -> (r: Self)
        ensures
            match font {
                Some(path) => r@ == (BuilderView { font: Some(path@), ..self@ }),
                None => r@ == self@,
            },
    {
        match font {
            Some(path) => self.with_font(path),
            None => self,
        }
    }

    /// Sets the cell size.
    pub fn with_size(self, size: u32) -> (r: Self)
        ensures
            r@ == (BuilderView { size: Some(size), ..self@ }),
    {
        GlyphMapBuilder { font: self.font, size: Some(size), chars: self.chars }
    }

    /// Sets the cell size if there is one, and changes nothing otherwise.
    pub fn with_size_or_default(self, size: Option<u32>) -> (r: Self)
        ensures
            match size {
                Some(size) => r@ == (BuilderView { size: Some(size), ..self@ }),
                None => r@ == self@,
            },
    {
        match size {
            Some(size) => self.with_size(size),
            None => self,
        }
    }

    /// Path of the font file, or `None` for the built-in font.
    pub fn font(&self) -> (r: Option<&String>)
        ensures
            match r {
                Some(path) => self@.font == Some(path@),
                None => self@.font is None,
            },
    {
        self.font.as_ref()
    }

    /// The cell size the cache will have.
    pub fn size(&self) -> (r: u32)
        ensures
            r == self@.cell_size(),
    {
        match self.size {
            Some(size) => size,
            None => DEFAULT_FONT_SCALE,
        }
    }

    /// The characters to render.
    pub fn chars(&self) -> (r: &'chars [char])
        ensures
            r@ == self@.chars,
    {
        self.chars
    }

    /// Builds the cache from the rasters of the characters, taken from the
    /// font at the cell size.
    pub fn build(self, rasters: Vec<GlyphRaster>) -> (r: GlyphMap)
        requires
            self@.cell_size() >= 1,
            self@.chars.len() == rasters@.len(),
            rasters_fit(raster_views(rasters@), self@.cell_size(), self@.cell_size()),
        ensures
            r@ == glyph_map_of(
                self@.cell_size(),
                self@.cell_size(),
                self@.chars,
                raster_views(rasters@),
            ),
            r@.wf(),
            r@.covers(self@.chars),
    {
        let size = self.size();
        GlyphMap::new(size, size, self.chars, rasters)
    }
}

} // verus!
