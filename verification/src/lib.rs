//! Block-quantized character art from packed 4:2:2 video frames.
//!
//! A frame is cut into cells. Each cell is reduced to its mean brightness,
//! the brightness is quantized to a character of a palette, and the pixels
//! of the cell are overwritten with the rasterized character. What comes
//! out has the size and the pixel encoding of what went in.
//!
//! - [`pixels`] and [`frame`]: the byte buffer of a frame, its luma samples
//!   and its horizontal strips.
//! - [`brightness`] and [`palette`]: brightness samples, the built-in
//!   palettes and the quantization.
//! - [`glyph`] and [`glyph_map`]: rasterized glyphs, rendered into their
//!   cell, and the cache of the glyphs of a palette.
//! - [`average`]: the walk over the blocks of a buffer and their means.
//! - [`filter`]: the filter, its configuration and the transform.
//! - [`stream`]: the chain of filters of a stream.
//! - [`control`]: the commands of the control surface and the state that
//!   they act on.
//!
//! The library holds no font and touches no device. Whoever uses it
//! rasterizes the characters and hands the samples in as [`GlyphRaster`]s,
//! and moves the bytes of the frames.

pub mod average;
pub mod brightness;
pub mod control;
pub mod filter;
pub mod frame;
pub mod glyph;
pub mod glyph_map;
pub mod palette;
pub mod pixels;
pub mod stream;

pub use average::IterAvg;
pub use brightness::Brightness;
pub use control::{AppState, ConfigError, Event, Key, MoreLess, Opts};
pub use filter::{AsciiFilter, AsciiMode};
pub use frame::{Frame, FrameFilter};
pub use glyph::{GlyphRaster, RenderedGlyph};
pub use glyph_map::{GlyphMap, GlyphMapBuilder};
pub use palette::{charset, AsciiMap};
pub use pixels::Yuyv;
pub use stream::{FrameMeta, StreamProcessor};
