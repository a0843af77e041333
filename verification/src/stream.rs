use vstd::prelude::*;

use crate::frame::{Frame, FrameFilter};
use crate::pixels::PixelsView;

verus! {

/// What the sink is told of a frame.
#[derive(Debug, Clone, Copy, PartialEq, Eq, Structural)]
pub struct FrameMeta {
    /// The field indicator of the frame.
    pub field: u32,
    /// Number of bytes of the buffer that the frame uses.
    pub bytesused: u32,
}

impl FrameMeta {
    /// What goes to the sink for a frame that came with `self`: the field
    /// indicator cleared, the byte count as it came.
    pub open spec fn spec_forwarded(self) -> FrameMeta {
        FrameMeta { field: 0, bytesused: self.bytesused }
    }

    /// What goes to the sink for a frame that came with `self`: the field
    /// indicator cleared, the byte count as it came.
    pub fn forwarded(self) -> (r: FrameMeta)
        ensures
            r == self.spec_forwarded(),
    {
        FrameMeta { field: 0, bytesused: self.bytesused }
    }
}

/// The frame after the filters were applied to it in their order, each to
/// what the one before it made.
pub open spec fn filtered<F: FrameFilter>(filters: Seq<F>, frame: PixelsView) -> PixelsView
    decreases filters.len(),
{
    if filters.len() == 0 {
        frame
    } else {
        filters.last().transformed(filtered(filters.drop_last(), frame))
    }
}

/// Whether every filter takes frames of this size.
pub open spec fn all_accept<F: FrameFilter>(filters: Seq<F>, width: u32, height: u32) -> bool {
    forall|i: int| 0 <= i < filters.len() ==> (#[trigger] filters[i]).accepts(width, height)
}

/// A stream's filters as contracts see them.
pub struct StreamView<F> {
    /// The active filters, in the order in which they are applied.
    pub filters: Seq<F>,
    /// Pixels in a row of the stream's frames.
    pub width: u32,
    /// Number of rows of the stream's frames.
    pub height: u32,
}

impl<F: FrameFilter> StreamView<F> {
    /// Every filter takes the frames of the stream.
    pub open spec fn wf(self) -> bool {
        all_accept(self.filters, self.width, self.height)
    }

    /// The bytes that go out for the bytes that came in.
    pub open spec fn output(self, input: Seq<u8>) -> Seq<u8> {
        filtered(
            self.filters,
            PixelsView { width: self.width, height: self.height, bytes: input },
        ).bytes
    }
}

/// The ordered list of filters that every frame of a stream goes through.
pub struct StreamProcessor<F: FrameFilter> {
    filters: Vec<F>,
    width: u32,
    height: u32,
}

impl<F: FrameFilter> View for StreamProcessor<F> {
    type V = StreamView<F>;

    closed spec fn view(&self) -> StreamView<F> {
        StreamView { filters: self.filters@, width: self.width, height: self.height }
    }
}

impl<F: FrameFilter> StreamProcessor<F> {
    /// The invariant: every value is well formed.
    #[verifier::type_invariant]
    pub open spec fn inv(&self) -> bool {
        self@.wf()
    }

    /// Starts with no filter, for frames of `width x height` pixels.
    pub fn new(width: u32, height: u32) -> (r: Self)
        ensures
            r@ == (StreamView::<F> { filters: Seq::empty(), width, height }),
            r@.wf(),
    {
        StreamProcessor { filters: Vec::new(), width, height }
    }

    /// Pixels in a row of the stream's frames.
    pub fn width(&self) -> (r: u32)
        ensures
            r == self@.width,
    {
        self.width
    }

    /// Number of rows of the stream's frames.
    pub fn height(&self) -> (r: u32)
        ensures
            r == self@.height,
    {
        self.height
    }

    /// Number of active filters.
    pub fn len(&self) -> (r: usize)
        ensures
            r == self@.filters.len(),
            self@.wf(),
    {
        proof {
            use_type_invariant(self);
        }
        self.filters.len()
    }

    /// The active filters, in the order in which they are applied.
    pub fn filters(&self) -> (r: &[F])
        ensures
            r@ == self@.filters,
            self@.wf(),
    {
        proof {
            use_type_invariant(self);
        }
        self.filters.as_slice()
    }

    /// Puts a filter behind those that are there.
    pub fn add_filter(self, filter: F) -> (r: Self)
        requires
            filter.accepts(self@.width, self@.height),
        ensures
            r@ == (StreamView { filters: self@.filters.push(filter), ..self@ }),
            r@.wf(),
    {
        proof {
            use_type_invariant(&self);
        }
        let StreamProcessor { filters, width, height } = self;
        let mut filters = filters;
        filters.push(filter);
        StreamProcessor { filters, width, height }
    }

    /// Takes every filter out.
    pub fn clear_filters(self) -> (r: Self)
        ensures
            r@ == (StreamView::<F> { filters: Seq::empty(), ..self@ }),
            r@.wf(),
    {
        StreamProcessor { filters: Vec::new(), width: self.width, height: self.height }
    }

    /// Applies the filters to a frame in their order, each to what the one
    /// before it left.
    pub fn apply(&self, frame: &mut Frame)
        requires
            old(frame)@.width == self@.width,
            old(frame)@.height == self@.height,
        ensures
            final(frame)@ == filtered(self@.filters, old(frame)@),
            final(frame)@.width == old(frame)@.width,
            final(frame)@.height == old(frame)@.height,
    {
        proof {
            use_type_invariant(self);
        }
        let ghost start = frame@;
        let mut i: usize = 0;
        assert(self.filters@.take(0) =~= Seq::empty());
        while i < self.filters.len()
            invariant
                i <= self.filters.len(),
                frame@.width == start.width,
                frame@.height == start.height,
                all_accept(self.filters@, start.width, start.height),
                frame@ == filtered(self.filters@.take(i as int), start),
            decreases self.filters.len() - i,
        {
            assert(self.filters@.take(i + 1).drop_last() =~= self.filters@.take(i as int));
            self.filters[i].process(frame);
            i = i + 1;
        }
        assert(self.filters@.take(i as int) =~= self.filters@);
    }

    /// One tick of the stream: the bytes that came from the source go
    /// through the filters, and come back with what the sink is to be told.
    pub fn process_frame(&self, input: Vec<u8>, meta: FrameMeta) -> (r: (Vec<u8>, FrameMeta))
        requires
            input@.len() == 2 * self@.width * self@.height,
        ensures
            r.0@ == self@.output(input@),
            r.0@.len() == input@.len(),
            r.1 == meta.spec_forwarded(),
    {
        let mut frame = Frame::new(input, self.width, self.height);
        self.apply(&mut frame);
        (frame.into_bytes(), meta.forwarded())
    }
}

/// A chain of one filter does what the filter does, and an empty chain
/// leaves the frame as it is.
pub proof fn lemma_short_chains<F: FrameFilter>(filter: F, frame: PixelsView)
    ensures
        filtered(Seq::<F>::empty(), frame) == frame,
        filtered(Seq::<F>::empty().push(filter), frame) == filter.transformed(frame),
{
    let one = Seq::<F>::empty().push(filter);
    assert(one.drop_last() =~= Seq::<F>::empty());
    assert(one.last() == filter);
    reveal_with_fuel(filtered, 2);
}

/// Filters added to a chain work on what the chain made before.
pub proof fn lemma_chain_grows<F: FrameFilter>(filters: Seq<F>, filter: F, frame: PixelsView)
    ensures
        filtered(filters.push(filter), frame) == filter.transformed(filtered(filters, frame)),
{
    assert(filters.push(filter).drop_last() =~= filters);
}

} // verus!
