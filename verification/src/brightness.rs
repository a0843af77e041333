use vstd::prelude::*;

verus! {

/// An 8-bit brightness sample: a luma byte of a frame or the coverage of a
/// glyph pixel.
#[derive(Debug, Clone, Copy, PartialEq, Eq, Structural)]
pub struct Brightness(pub u8);

impl Brightness {
    /// Wraps a raw sample.
    pub fn new(value: u8) -> (b: Self)
        ensures
            b.0 == value,
    {
        Brightness(value)
    }

    /// The raw sample.
    pub fn value(self) -> (v: u8)
        ensures
            v == self.0,
    {
        self.0
    }
}

impl Default for Brightness {
    /// The darkest sample, used for the pixels a glyph does not draw.
    fn default() -> (b: Self)
        ensures
            b.0 == 0,
    {
        Brightness(0)
    }
}

} // verus!
