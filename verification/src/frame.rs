use vstd::arithmetic::power2::pow2;
use vstd::prelude::*;

use crate::brightness::Brightness;
use crate::pixels::{luma_offset, stackable, stacked, PixelsView, Yuyv, NEUTRAL_GRAY};

verus! {

/// One video frame, or a strip of one: a pixel buffer with its size.
#[derive(Debug)]
pub struct Frame {
    pixels: Yuyv,
}

impl View for Frame {
    type V = PixelsView;

    closed spec fn view(&self) -> PixelsView {
        self.pixels@
    }
}

/// The views of a list of frames.
pub open spec fn frame_views(frames: Seq<Frame>) -> Seq<PixelsView> {
    frames.map_values(|f: Frame| f@)
}

impl Frame {
    /// Takes the bytes of a frame of `width x height` pixels.
    pub fn new(buf: Vec<u8>, width: u32, height: u32) -> (r: Self)
        requires
            buf@.len() == 2 * width * height,
        ensures
            r@ == (PixelsView { width, height, bytes: buf@ }),
            r@.wf(),
    {
        Frame { pixels: Yuyv::new(buf, width, height) }
    }

    /// Splits the frame into `2^n` horizontal strips of equal height, in
    /// order of increasing row.
    pub fn splitn(&self, n: u32) -> (r: Vec<Frame>)
        requires
            n < 32,
            self@.height as int % pow2(n as nat) as int == 0,
        ensures
            frame_views(r@) == self@.strips(n),
            forall|k: int| 0 <= k < r@.len() ==> (#[trigger] r@[k])@.wf(),
            self@.wf(),
    {
        let strips = self.pixels.splitn(n);
        let ghost all = strips@;
        let mut frames: Vec<Frame> = Vec::new();
        for pixels in it: strips.into_iter()
            invariant
                it.seq() == all,
                crate::pixels::views(all) == self@.strips(n),
                forall|k: int| 0 <= k < all.len() ==> (#[trigger] all[k])@.wf(),
                frames@.len() == it.index(),
                forall|k: int| 0 <= k < frames@.len() ==> (#[trigger] frames@[k])@ == all[k]@,
        {
            frames.push(Frame { pixels });
        }
        assert(frame_views(frames@) =~= self@.strips(n)) by {
            assert forall|k: int| 0 <= k < frames@.len() implies frame_views(frames@)[k]
                == self@.strips(n)[k] by {
                assert(crate::pixels::views(all)[k] == all[k]@);
            }
            assert(crate::pixels::views(all).len() == all.len());
        }
        assert forall|k: int| 0 <= k < frames@.len() implies (#[trigger] frames@[k])@.wf() by {
            assert(all[k]@.wf());
        }
        frames
    }

    /// Stacks strips of one width into a single frame, the first on top.
    pub fn join(strips: Vec<Frame>) -> (r: Self)
        requires
            stackable(frame_views(strips@)),
        ensures
            r@ == stacked(frame_views(strips@)),
            r@.wf(),
    {
        let ghost all = strips@;
        let mut buffers: Vec<Yuyv> = Vec::new();
        for frame in it: strips.into_iter()
            invariant
                it.seq() == all,
                buffers@.len() == it.index(),
                forall|k: int| 0 <= k < buffers@.len() ==> (#[trigger] buffers@[k])@ == all[k]@,
        {
            buffers.push(frame.pixels);
        }
        assert(crate::pixels::views(buffers@) =~= frame_views(all));
        Frame { pixels: Yuyv::join(buffers) }
    }

    /// Overwrites every byte of the frame with the neutral gray.
    pub fn as_grayscale(&mut self)
        ensures
            final(self)@ == old(self)@.flattened(NEUTRAL_GRAY),
            final(self)@.wf(),
    {
        self.pixels.as_grayscale();
    }

    /// The bytes of the frame.
    pub fn as_bytes(&self) -> (r: &[u8])
        ensures
            r@ == self@.bytes,
            self@.wf(),
    {
        self.pixels.as_bytes()
    }

    /// Gives the bytes back.
    pub fn into_bytes(self) -> (r: Vec<u8>)
        ensures
            r@ == self@.bytes,
            self@.wf(),
    {
        self.pixels.into_bytes()
    }

    /// Pixels in a row.
    pub fn width(&self) -> (r: u32)
        ensures
            r == self@.width,
            self@.wf(),
    {
        self.pixels.width()
    }

    /// Number of rows.
    pub fn height(&self) -> (r: u32)
        ensures
            r == self@.height,
            self@.wf(),
    {
        self.pixels.height()
    }

    /// The pixel buffer of the frame.
    pub fn pixels(&self) -> (r: &Yuyv)
        ensures
            r@ == self@,
    {
        &self.pixels
    }

    /// Writes the brightness of pixel `(x, y)`; no other byte changes.
    pub fn set_brightness(&mut self, x: u32, y: u32, b: Brightness)
        requires
            x < old(self)@.width,
            y < old(self)@.height,
        ensures
            final(self)@ == (PixelsView {
                bytes: old(self)@.bytes.update(
                    luma_offset(x as int, y as int, old(self)@.width as int),
                    b.0,
                ),
                ..old(self)@
            }),
            final(self)@.wf(),
    {
        self.pixels.set_brightness(x, y, b);
    }
}

impl Clone for Frame {
    /// Copies the frame, bytes and all.
    fn clone(&self) -> (r: Self)
        ensures
            r@ == self@,
            r@.wf(),
    {
        let bytes = vstd::slice::slice_to_vec(self.pixels.as_bytes());
        Frame { pixels: Yuyv::new(bytes, self.pixels.width(), self.pixels.height()) }
    }
}

/// A transform that is applied to a frame in place.
pub trait FrameFilter {
    /// The frame sizes that the filter can work on.
    spec fn accepts(&self, width: u32, height: u32) -> bool;

    /// What the filter makes of a frame.
    spec fn transformed(&self, frame: PixelsView) -> PixelsView;

    /// Transforms the frame in place; its size stays as it is.
    fn process(&self, frame: &mut Frame)
        requires
            self.accepts(old(frame)@.width, old(frame)@.height),
        ensures
            final(frame)@ == self.transformed(old(frame)@),
            final(frame)@.width == old(frame)@.width,
            final(frame)@.height == old(frame)@.height,
            final(frame)@.wf(),
    ;
}

} // verus!
