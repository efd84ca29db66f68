use vstd::prelude::*;

use crate::ring;
use crate::ring::{Frame, FrameView};

verus! {

/// Result of reading one logical counter from a ring source.
#[derive(Clone, Debug, PartialEq, Eq)]
pub enum RingRead {
    /// The expected counter is fully committed and safe to consume.
    Ready(Frame),
    /// The counter has been claimed but may still be in flight. A cursor must
    /// stay on this counter and retry later.
    Pending,
    /// The counter can no longer be read from this slot.
    Unavailable,
}

/// What a read gives, as values.
pub enum RingReadView {
    Ready(FrameView),
    Pending,
    Unavailable,
}

impl View for RingRead {
    type V = RingReadView;

    open spec fn view(&self) -> RingReadView {
        match self {
            RingRead::Ready(frame) => RingReadView::Ready(frame@),
            RingRead::Pending => RingReadView::Pending,
            RingRead::Unavailable => RingReadView::Unavailable,
        }
    }
}

impl RingRead {
    /// How a slot reads for a source that cannot tell an in-flight claim from a
    /// missing frame.
    pub open spec fn of_slot(slot: Option<FrameView>) -> RingReadView {
        match slot {
            Some(frame) => RingReadView::Ready(frame),
            None => RingReadView::Unavailable,
        }
    }

    /// Classify the content of a slot for a source that cannot tell an
    /// in-flight claim from a missing frame.
    pub fn from_slot(slot: Option<Frame>) -> (state: RingRead)
        ensures
            state@ == RingRead::of_slot(ring::slot_view(slot)),
    {
        match slot {
            Some(frame) => RingRead::Ready(frame),
            None => RingRead::Unavailable,
        }
    }
}

/// Read-only source that a cursor can walk.
///
/// Implementors expose only the ring facts that the walk needs: the kind, the
/// visible head, the fixed capacity, and reads addressed by counter.
pub trait RingFrameSource {
    /// The source can be read.
    spec fn source_wf(&self) -> bool;

    /// The kind that the ring carries.
    spec fn source_kind(&self) -> u8;

    /// The visible head.
    spec fn source_head(&self) -> u64;

    /// The slot count.
    spec fn source_capacity(&self) -> usize;

    /// What the slot of a counter holds.
    spec fn source_read_at(&self, counter: u64) -> Option<FrameView>;

    /// How a counter reads.
    spec fn source_state_at(&self, counter: u64) -> RingReadView;

    /// The kind carried by this ring.
    fn kind(&self) -> (kind: u8)
        requires
            self.source_wf(),
        ensures
            kind == self.source_kind(),
    ;

    /// Monotonic visible head: counters reserved, or frames committed, by
    /// writers, depending on the topology.
    fn head(&self) -> (head: u64)
        requires
            self.source_wf(),
        ensures
            head == self.source_head(),
    ;

    /// Fixed slot count for this ring.
    fn capacity(&self) -> (capacity: usize)
        requires
            self.source_wf(),
        ensures
            capacity == self.source_capacity(),
    ;

    /// Read the frame that currently occupies the slot of `counter`.
    fn read_at(&self, counter: u64) -> (frame: Option<Frame>)
        requires
            self.source_wf(),
        ensures
            ring::slot_view(frame) == self.source_read_at(counter),
    ;

    /// Classify the logical counter. A source that cannot tell an in-flight
    /// claim from a missing frame answers with [`RingRead::from_slot`].
    fn read_state_at(&self, counter: u64) -> (state: RingRead)
        requires
            self.source_wf(),
        ensures
            state@ == self.source_state_at(counter),
    ;
}

/// The oldest counter that a ring with this head and capacity retains.
pub open spec fn window_floor(head: u64, capacity: usize) -> int {
    if head > capacity {
        head - capacity
    } else {
        0
    }
}

/// What the slots of the retained counters hold, oldest first.
pub open spec fn window<S: RingFrameSource>(source: &S) -> Seq<Option<FrameView>> {
    let floor = window_floor(source.source_head(), source.source_capacity());
    Seq::new(
        (source.source_head() - floor) as nat,
        |i: int| source.source_read_at((floor + i) as u64),
    )
}

/// A window shows the last slots of a source, oldest first: as many as the ring has, or
/// as many as were written where that is fewer, up to the slot before the head.
pub proof fn law_a_window_shows_the_last_slots<S: RingFrameSource>(source: &S, i: int)
    ensures
        ({
            let head = source.source_head() as int;
            let shown = window(source);
            &&& shown.len() == (if head < source.source_capacity() {
                head
            } else {
                source.source_capacity() as int
            })
            &&& window_floor(source.source_head(), source.source_capacity()) + shown.len() == head
            &&& 0 <= i < shown.len() ==> shown[i] == source.source_read_at(
                (head - shown.len() + i) as u64,
            )
        }),
{
}

/// A slot without a frame cannot be read, and one with a frame is ready.
pub proof fn law_slots_read_as_they_are(frame: FrameView)
    ensures
        RingRead::of_slot(Some(frame)) == RingReadView::Ready(frame),
        RingRead::of_slot(None) == RingReadView::Unavailable,
{
}

} // verus!
