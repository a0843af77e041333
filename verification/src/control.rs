use vstd::arithmetic::power2::{lemma2_to64, pow2};
use vstd::prelude::*;

use crate::filter::{
    directed, requested_charset, AsciiFilter, AsciiMode, FilterView, NSUBFRAME_SPLITS,
};
use crate::glyph::GlyphRaster;
use crate::glyph_map::{glyph_map_of, raster_views, rasters_fit, resized, GlyphMapBuilder};
use crate::palette::{charset, charset_spec, lemma_charset_shape, AsciiMap};
use crate::stream::{StreamProcessor, StreamView};

verus! {

/// Change of the cell size on a plain keystroke.
pub const SIZE_INCREMENT: i32 = 1;

/// Change of the cell size on a keystroke with the modifier.
pub const BIG_SIZE_INCREMENT: i32 = 10;

/// What the program is started with.
#[derive(Debug)]
pub struct Opts {
    /// Path to the capture device.
    pub source: String,
    /// Path to the output device.
    pub sink: String,
    /// Number of bits to use for the charset.
    pub nbits: u32,
    /// Path to a font.
    pub font: Option<String>,
    /// Font size in pixels.
    pub font_size: Option<u32>,
    /// Color mode.
    pub mode: AsciiMode,
    /// Whether the interactive mode is switched off.
    pub nointeractive: bool,
}

/// Direction of a change of the bit depth.
#[derive(Debug, Clone, Copy, PartialEq, Eq, Structural)]
pub enum MoreLess {
    /// One bit more.
    More,
    /// One bit less.
    Less,
}

impl MoreLess {
    /// The change of the bit depth that the direction stands for.
    pub open spec fn spec_delta(self) -> i32 {
        match self {
            MoreLess::More => 1,
            MoreLess::Less => (-1) as i32,
        }
    }

    /// The change of the bit depth that the direction stands for.
    pub fn delta(self) -> (r: i32)
        ensures
            r == self.spec_delta(),
    {
        match self {
            MoreLess::More => 1,
            MoreLess::Less => -1,
        }
    }
}

/// A key of the control surface.
#[derive(Debug, Clone, Copy, PartialEq, Eq, Structural)]
pub enum Key {
    /// A character key.
    Char(char),
    /// The escape key.
    Esc,
    /// The enter key.
    Enter,
    /// The left arrow.
    Left,
    /// The right arrow.
    Right,
    /// Any other key.
    Other,
}

/// A command to the running program.
#[derive(Debug, Clone, Copy, PartialEq, Eq, Structural)]
pub enum Event {
    /// Stop.
    Quit,
    /// Switch the filter on or off.
    Toggle,
    /// Go to the next color mode.
    CycleMode,
    /// Change the cell size by so many pixels.
    ChangeSize(i32),
    /// Change the bit depth of the palette by one.
    ChangeBitdepth(MoreLess),
    /// Nothing to do.
    Other,
}

impl Event {
    /// The command that a keystroke gives; `alt` says whether the modifier
    /// for the large step was held.
    pub open spec fn spec_from_key(key: Key, alt: bool) -> Event {
        match key {
            Key::Char(c) => if c == 'q' {
                Event::Quit
            } else if c == ' ' {
                Event::Toggle
            } else if c == '+' {
                Event::ChangeSize(
                    if alt {
                        BIG_SIZE_INCREMENT
                    } else {
                        SIZE_INCREMENT
                    },
                )
            } else if c == '-' {
                Event::ChangeSize(
                    if alt {
                        (-BIG_SIZE_INCREMENT) as i32
                    } else {
                        (-SIZE_INCREMENT) as i32
                    },
                )
            } else {
                Event::Other
            },
            Key::Esc => Event::Quit,
            Key::Enter => Event::CycleMode,
            Key::Left => Event::ChangeBitdepth(MoreLess::Less),
            Key::Right => Event::ChangeBitdepth(MoreLess::More),
            Key::Other => Event::Other,
        }
    }

    /// The command that a keystroke gives; `alt` says whether the modifier
    /// for the large step was held. A key that stands for no command gives
    /// `Other`.
    pub fn from_key(key: Key, alt: bool) -> (r: Event)
        ensures
            r == Event::spec_from_key(key, alt),
    {
        match key {
            Key::Char(c) => {
                if c == 'q' {
                    Event::Quit
                } else if c == ' ' {
                    Event::Toggle
                } else if c == '+' {
                    Event::ChangeSize(
                        if alt {
                            BIG_SIZE_INCREMENT
                        } else {
                            SIZE_INCREMENT
                        },
                    )
                } else if c == '-' {
                    Event::ChangeSize(
                        if alt {
                            -BIG_SIZE_INCREMENT
                        } else {
                            -SIZE_INCREMENT
                        },
                    )
                } else {
                    Event::Other
                }
            },
            Key::Esc => Event::Quit,
            Key::Enter => Event::CycleMode,
            Key::Left => Event::ChangeBitdepth(MoreLess::Less),
            Key::Right => Event::ChangeBitdepth(MoreLess::More),
            Key::Other => Event::Other,
        }
    }
}

/// Why the program cannot start.
#[derive(Debug, Clone, Copy, PartialEq, Eq, Structural)]
pub enum ConfigError {
    /// The built-in palettes have none of the bit depth that was asked for.
    NoCharset,
}

impl ConfigError {
    /// The error in words.
    pub fn message(self) -> (r: &'static str)
        ensures
            r@ == "No charset for that number of bits"@,
    {
        "No charset for that number of bits"
    }
}

/// The views of the filters of a stream.
pub open spec fn installed(stream: StreamView<AsciiFilter>) -> Seq<FilterView> {
    stream.filters.map_values(|f: AsciiFilter| f@)
}

/// The running program as contracts see it.
pub struct AppView {
    /// Path to the capture device.
    pub source: Seq<char>,
    /// Path to the output device.
    pub sink: Seq<char>,
    /// Bit depth of the palette.
    pub nbits: u32,
    /// The palette in its plain order.
    pub chars: Seq<char>,
    /// The filter as it is configured.
    pub filter: FilterView,
    /// The filters of the stream.
    pub stream: StreamView<AsciiFilter>,
    /// Whether commands are taken.
    pub interactive: bool,
    /// Whether the filter is switched on.
    pub enabled: bool,
    /// Whether the display is out of date.
    pub redraw: bool,
}

impl AppView {
    /// The palette is the built-in one of the bit depth, the filter holds it
    /// in the direction of its mode with a glyph for each character in a
    /// square cell, and the stream runs the filter exactly while it is
    /// switched on.
    pub open spec fn wf(self) -> bool {
        &&& self.filter.wf()
        &&& self.filter.nbits == self.nbits
        &&& charset_spec(self.nbits) == Some(self.chars)
        &&& self.filter.palette == directed(self.chars, self.filter.mode)
        &&& self.filter.glyphs.chars == self.chars
        &&& self.filter.glyphs.width == self.filter.glyphs.height
        &&& self.stream.wf()
        &&& self.stream.height as int % pow2(NSUBFRAME_SPLITS as nat) as int == 0
        &&& installed(self.stream) == if self.enabled {
            seq![self.filter]
        } else {
            Seq::<FilterView>::empty()
        }
    }

    /// The stream with the filter as the state holds it, if it is on.
    pub open spec fn stream_follows(self, before: AppView) -> bool {
        &&& self.stream.width == before.stream.width
        &&& self.stream.height == before.stream.height
        &&& installed(self.stream) == if self.enabled {
            seq![self.filter]
        } else {
            Seq::<FilterView>::empty()
        }
    }
}

/// The state of the running program: the configuration, the filter, and the
/// filters of the stream.
pub struct AppState {
    source: String,
    sink: String,
    nbits: u32,
    chars: Vec<char>,
    ascii_filter: AsciiFilter,
    stream: StreamProcessor<AsciiFilter>,
    interactive: bool,
    enabled: bool,
    redraw: bool,
}

impl View for AppState {
    type V = AppView;

    closed spec fn view(&self) -> AppView {
        AppView {
            source: self.source@,
            sink: self.sink@,
            nbits: self.nbits,
            chars: self.chars@,
            filter: self.ascii_filter@,
            stream: self.stream@,
            interactive: self.interactive,
            enabled: self.enabled,
            redraw: self.redraw,
        }
    }
}

/// The stream with the filter in place of the filters it had.
fn reinstalled(stream: StreamProcessor<AsciiFilter>, filter: &AsciiFilter) -> (r: StreamProcessor<
    AsciiFilter,
>)
    requires
        stream@.height as int % pow2(NSUBFRAME_SPLITS as nat) as int == 0,
    ensures
        r@.width == stream@.width,
        r@.height == stream@.height,
        r@.wf(),
        installed(r@) == seq![filter@],
{
    let copy = filter.clone();
    let r = stream.clear_filters().add_filter(copy);
    assert(installed(r@) =~= seq![filter@]);
    r
}

impl AppState {
    /// The invariant: every value is well formed.
    #[verifier::type_invariant]
    pub open spec fn inv(&self) -> bool {
        self@.wf()
    }

    /// Sets the program up for a stream of `width x height` frames: the
    /// built-in palette of the bit depth, its glyphs from the rasters, the
    /// filter in the mode asked for, switched on. There is no state for a bit
    /// depth without a palette.
    pub fn from_opts(opts: Opts, rasters: Vec<GlyphRaster>, width: u32, height: u32) -> (r: Result<
        Self,
        ConfigError,
    >)
        requires
            height as int % pow2(NSUBFRAME_SPLITS as nat) as int == 0,
            charset_spec(opts.nbits) matches Some(chars) ==> {
                let size = match opts.font_size {
                    Some(size) => size,
                    None => crate::glyph_map::DEFAULT_FONT_SCALE,
                };
                &&& size >= 1
                &&& chars.len() == rasters@.len()
                &&& rasters_fit(raster_views(rasters@), size, size)
            },
        ensures
            match r {
                Ok(state) => {
                    let size = match opts.font_size {
                        Some(size) => size,
                        None => crate::glyph_map::DEFAULT_FONT_SCALE,
                    };
                    &&& charset_spec(opts.nbits) == Some(state@.chars)
                    &&& state@.source == opts.source@
                    &&& state@.sink == opts.sink@
                    &&& state@.nbits == opts.nbits
                    &&& state@.filter.mode == opts.mode
                    &&& state@.filter.glyphs == glyph_map_of(
                        size,
                        size,
                        state@.chars,
                        raster_views(rasters@),
                    )
                    &&& state@.stream.width == width
                    &&& state@.stream.height == height
                    &&& state@.interactive == !opts.nointeractive
                    &&& state@.enabled
                    &&& state@.redraw
                    &&& state@.wf()
                },
                Err(e) => e == ConfigError::NoCharset && charset_spec(opts.nbits) is None,
            },
    {
        let Opts { source, sink, nbits, font, font_size, mode, nointeractive } = opts;
        let chars = match charset(nbits) {
            Some(chars) => chars,
            None => {
                return Err(ConfigError::NoCharset);
            },
        };
        proof {
            lemma_charset_shape(nbits);
        }
        let glyphs = GlyphMapBuilder::new(chars.as_slice()).with_font_or_default(
            font,
        ).with_size_or_default(font_size).build(rasters);
        let ascii_map = AsciiMap::new(vstd::slice::slice_to_vec(chars.as_slice()));
        let ascii_filter = AsciiFilter::new(ascii_map, glyphs, mode);
        proof {
            lemma_depth(ascii_filter@.nbits, nbits);
        }
        let stream = reinstalled(StreamProcessor::new(width, height), &ascii_filter);
        Ok(
            AppState {
                source,
                sink,
                nbits,
                chars,
                ascii_filter,
                stream,
                interactive: !nointeractive,
                enabled: true,
                redraw: true,
            },
        )
    }

    /// Switches the filter on or off: the stream runs it, or runs nothing.
    pub fn toggle(self) -> (r: Self)
        ensures
            r@ == (AppView { redraw: true, enabled: !self@.enabled, stream: r@.stream, ..self@ }),
            r@.stream_follows(self@),
            r@.wf(),
    {
        proof {
            use_type_invariant(&self);
        }
        let AppState {
            source,
            sink,
            nbits,
            chars,
            ascii_filter,
            stream,
            interactive,
            enabled,
            redraw: _,
        } = self;
        let stream = if enabled {
            let cleared = stream.clear_filters();
            assert(installed(cleared@) =~= Seq::<FilterView>::empty());
            cleared
        } else {
            reinstalled(stream, &ascii_filter)
        };
        AppState {
            source,
            sink,
            nbits,
            chars,
            ascii_filter,
            stream,
            interactive,
            enabled: !enabled,
            redraw: true,
        }
    }

    /// Moves the filter to the next mode.
    pub fn cycle_mode(self) -> (r: Self)
        ensures
            r@ == (AppView {
                redraw: true,
                filter: self@.filter.cycled(),
                stream: r@.stream,
                ..self@
            }),
            r@.stream_follows(self@),
            r@.wf(),
    {
        proof {
            use_type_invariant(&self);
        }
        let ghost before = self@;
        let AppState {
            source,
            sink,
            nbits,
            chars,
            ascii_filter,
            stream,
            interactive,
            enabled,
            redraw: _,
        } = self;
        let ascii_filter = ascii_filter.cycle_mode();
        proof {
            assert(before.chars.reverse().reverse() =~= before.chars);
        }
        let stream = if enabled {
            reinstalled(stream, &ascii_filter)
        } else {
            stream
        };
        AppState {
            source,
            sink,
            nbits,
            chars,
            ascii_filter,
            stream,
            interactive,
            enabled,
            redraw: true,
        }
    }

    /// The cell size after a change by `inc`: the size at which
    /// `change_size` wants the palette rasterized.
    pub fn resized_size(&self, inc: i32) -> (r: (u32, u32))
        ensures
            r.0 == resized(self@.filter.glyphs.width, inc),
            r.1 == resized(self@.filter.glyphs.height, inc),
            r.0 >= 1,
            r.1 >= 1,
    {
        self.ascii_filter.resized_size(inc)
    }

    /// Changes the cell size by `inc`, with the rasters of the palette at
    /// the new size.
    pub fn change_size(self, inc: i32, rasters: Vec<GlyphRaster>) -> (r: Self)
        requires
            self@.chars.len() == rasters@.len(),
            rasters_fit(
                raster_views(rasters@),
                resized(self@.filter.glyphs.width, inc),
                resized(self@.filter.glyphs.height, inc),
            ),
        ensures
            r@ == (AppView {
                redraw: true,
                filter: FilterView {
                    glyphs: glyph_map_of(
                        resized(self@.filter.glyphs.width, inc),
                        resized(self@.filter.glyphs.height, inc),
                        self@.chars,
                        raster_views(rasters@),
                    ),
                    ..self@.filter
                },
                stream: r@.stream,
                ..self@
            }),
            r@.stream_follows(self@),
            r@.wf(),
    {
        proof {
            use_type_invariant(&self);
        }
        let AppState {
            source,
            sink,
            nbits,
            chars,
            ascii_filter,
            stream,
            interactive,
            enabled,
            redraw: _,
        } = self;
        let ascii_filter = ascii_filter.resize(inc, rasters);
        let stream = if enabled {
            reinstalled(stream, &ascii_filter)
        } else {
            stream
        };
        AppState {
            source,
            sink,
            nbits,
            chars,
            ascii_filter,
            stream,
            interactive,
            enabled,
            redraw: true,
        }
    }

    /// The palette that a change of the bit depth wants rasterized, or
    /// `None` where the change leads out of the built-in palettes.
    pub fn requested_charset(&self, moreless: MoreLess) -> (r: Option<Vec<char>>)
        ensures
            match r {
                Some(chars) => requested_charset(self@.nbits, moreless.spec_delta()) == Some(
                    chars@,
                ),
                None => requested_charset(self@.nbits, moreless.spec_delta()) is None,
            },
    {
        proof {
            use_type_invariant(self);
        }
        self.ascii_filter.requested_charset(moreless.delta())
    }

    /// Changes the bit depth of the palette by one. Where that leads out of
    /// the built-in palettes, below 1 or above 6, nothing changes.
    pub fn change_bitdepth(self, moreless: MoreLess, rasters: Vec<GlyphRaster>) -> (r: Self)
        requires
            requested_charset(self@.nbits, moreless.spec_delta()) matches Some(chars)
                ==> chars.len() == rasters@.len() && rasters_fit(
                raster_views(rasters@),
                self@.filter.glyphs.width,
                self@.filter.glyphs.height,
            ),
        ensures
            match requested_charset(self@.nbits, moreless.spec_delta()) {
                Some(chars) => {
                    &&& r@ == (AppView {
                        redraw: true,
                        nbits: (self@.nbits + moreless.spec_delta()) as u32,
                        chars,
                        filter: r@.filter,
                        stream: r@.stream,
                        ..self@
                    })
                    &&& r@.filter.palette == directed(chars, self@.filter.mode)
                    &&& r@.filter.mode == self@.filter.mode
                    &&& r@.filter.glyphs == glyph_map_of(
                        self@.filter.glyphs.width,
                        self@.filter.glyphs.height,
                        chars,
                        raster_views(rasters@),
                    )
                    &&& r@.stream_follows(self@)
                },
                None => r@ == self@,
            },
            r@.wf(),
    {
        proof {
            use_type_invariant(&self);
        }
        let delta = moreless.delta();
        match self.ascii_filter.requested_charset(delta) {
            None => self,
            Some(new_chars) => {
                let AppState {
                    source,
                    sink,
                    nbits,
                    chars: _,
                    ascii_filter,
                    stream,
                    interactive,
                    enabled,
                    redraw: _,
                } = self;
                let new_nbits: u32 = if delta > 0 {
                    nbits + 1
                } else {
                    nbits - 1
                };
                let ascii_filter = ascii_filter.change_bitdepth(delta, rasters);
                let stream = if enabled {
                    reinstalled(stream, &ascii_filter)
                } else {
                    stream
                };
                AppState {
                    source,
                    sink,
                    nbits: new_nbits,
                    chars: new_chars,
                    ascii_filter,
                    stream,
                    interactive,
                    enabled,
                    redraw: true,
                }
            },
        }
    }

    /// Notes that the display shows the state as it is.
    pub fn drawn(self) -> (r: Self)
        ensures
            r@ == (AppView { redraw: false, ..self@ }),
            r@.wf(),
    {
        proof {
            use_type_invariant(&self);
        }
        AppState {
            source: self.source,
            sink: self.sink,
            nbits: self.nbits,
            chars: self.chars,
            ascii_filter: self.ascii_filter,
            stream: self.stream,
            interactive: self.interactive,
            enabled: self.enabled,
            redraw: false,
        }
    }

    /// The size of the cell, which is as wide as it is high.
    pub fn font_size(&self) -> (r: u32)
        ensures
            r == self@.filter.glyphs.width,
            r == self@.filter.glyphs.height,
    {
        proof {
            use_type_invariant(self);
        }
        let (w, _) = self.ascii_filter.size();
        w
    }

    /// The mode of the filter.
    pub fn mode(&self) -> (r: AsciiMode)
        ensures
            r == self@.filter.mode,
    {
        self.ascii_filter.mode()
    }

    /// Path to the capture device.
    pub fn source(&self) -> (r: &String)
        ensures
            r@ == self@.source,
    {
        &self.source
    }

    /// Path to the output device.
    pub fn sink(&self) -> (r: &String)
        ensures
            r@ == self@.sink,
    {
        &self.sink
    }

    /// Bit depth of the palette.
    pub fn nbits(&self) -> (r: u32)
        ensures
            r == self@.nbits,
    {
        self.nbits
    }

    /// The palette in its plain order.
    pub fn chars(&self) -> (r: &[char])
        ensures
            r@ == self@.chars,
    {
        self.chars.as_slice()
    }

    /// The filter as it is configured.
    pub fn filter(&self) -> (r: &AsciiFilter)
        ensures
            r@ == self@.filter,
    {
        &self.ascii_filter
    }

    /// The filters of the stream.
    pub fn stream(&self) -> (r: &StreamProcessor<AsciiFilter>)
        ensures
            r@ == self@.stream,
            self@.wf(),
    {
        proof {
            use_type_invariant(self);
        }
        &self.stream
    }

    /// Whether commands are taken.
    pub fn interactive(&self) -> (r: bool)
        ensures
            r == self@.interactive,
    {
        self.interactive
    }

    /// Whether the filter is switched on.
    pub fn enabled(&self) -> (r: bool)
        ensures
            r == self@.enabled,
    {
        self.enabled
    }

    /// Whether the display is out of date.
    pub fn redraw(&self) -> (r: bool)
        ensures
            r == self@.redraw,
    {
        self.redraw
    }
}

proof fn lemma_depth(a: u32, b: u32)
    requires
        a <= 8,
        b <= 8,
        pow2(a as nat) == pow2(b as nat),
    ensures
        a == b,
{
    lemma2_to64();
}

} // verus!
