use vstd::prelude::*;

use super::poll;
use super::{RingCursor, RingFrameSource, RingLoss, RingPoll, RingPollView, RingRead, RingReadView};
use crate::ring::{Frame, FrameView};

verus! {

/// The first counter in `from..head` that is still in flight, or `head`.
pub open spec fn walk_end(states: spec_fn(u64) -> RingReadView, from: int, head: int) -> int
    decreases head - from,
{
    if from >= head || states(from as u64) is Pending {
        from
    } else {
        walk_end(states, from + 1, head)
    }
}

/// What a counter contributes to a walk: its frame, if the frame carries the
/// ring's kind and this very counter.
pub open spec fn walk_step(states: spec_fn(u64) -> RingReadView, kind: u8, counter: int) -> Seq<
    FrameView,
> {
    match states(counter as u64) {
        RingReadView::Ready(frame) => if frame.id.spec_kind() == kind && frame.id.spec_counter()
            == counter {
            seq![frame]
        } else {
            seq![]
        },
        _ => seq![],
    }
}

/// The frames delivered by the counters `from..to`, oldest first.
pub open spec fn walk_frames(
    states: spec_fn(u64) -> RingReadView,
    kind: u8,
    from: int,
    to: int,
) -> Seq<FrameView>
    decreases to - from,
{
    if from >= to {
        seq![]
    } else {
        walk_frames(states, kind, from, to - 1) + walk_step(states, kind, to - 1)
    }
}

/// The outcome of a poll that starts at `next`, on a ring of this kind, head and
/// capacity whose counters read as `states` says.
///
/// A cursor at or beyond the head moves to the head. Counters below the retained
/// window are overwritten; the walk resumes at the window's floor, stops at the
/// first counter in flight, and counts what it could not deliver.
pub open spec fn polled(
    kind: u8,
    head: u64,
    capacity: usize,
    states: spec_fn(u64) -> RingReadView,
    next: u64,
) -> RingPollView {
    if next >= head {
        RingPollView {
            frames: seq![],
            loss: RingLoss { overwritten: 0, unavailable: 0 },
            from_counter: next,
            to_counter: head,
        }
    } else {
        let floor: int = if head > capacity {
            head - capacity
        } else {
            0
        };
        let start: int = if next < floor {
            floor
        } else {
            next as int
        };
        let end = walk_end(states, start, head as int);
        let frames = walk_frames(states, kind, start, end);
        RingPollView {
            frames,
            loss: RingLoss {
                overwritten: (start - next) as u64,
                unavailable: (end - start - frames.len()) as u64,
            },
            from_counter: next,
            to_counter: end as u64,
        }
    }
}

/// The outcome of polling `source` from `next`.
pub open spec fn polled_source<S: RingFrameSource>(source: &S, next: u64) -> RingPollView {
    polled(
        source.source_kind(),
        source.source_head(),
        source.source_capacity(),
        |counter: u64| source.source_state_at(counter),
        next,
    )
}

/// Walk `cursor` toward the current visible head of `source`.
///
/// At most one ring window is inspected. If the cursor has fallen behind the
/// oldest available counter, the skipped counters are recorded as overwritten
/// and the walk resumes at the window floor. An in-flight counter stops the walk
/// without advancing past it.
pub fn poll_ring<S: RingFrameSource>(source: &S, cursor: &mut RingCursor) -> (poll: RingPoll)
    requires
        source.source_wf(),
    ensures
        poll@ == polled_source(source, old(cursor).spec_next()),
        final(cursor).spec_next() == poll.to_counter,
{
    let head: u64 = source.head();
    let from_counter: u64 = cursor.next_counter();

    if from_counter >= head {
        cursor.set_next_counter(head);
        let poll = RingPoll {
            frames: Vec::new(),
            loss: RingLoss::none(),
            from_counter,
            to_counter: head,
        };
        proof {
            assert(poll@.frames =~= seq![]);
        }
        return poll;
    }
    let capacity: u64 = source.capacity() as u64;
    let oldest_available: u64 = head.saturating_sub(capacity);
    let mut next: u64 = from_counter;
    let mut loss = RingLoss::none();

    if next < oldest_available {
        loss.overwritten = oldest_available - next;
        next = oldest_available;
    }
    let kind: u8 = source.kind();
    let mut frames: Vec<Frame> = Vec::new();
    let mut in_flight = false;
    let ghost states = |counter: u64| source.source_state_at(counter);
    let ghost start = next as int;
    proof {
        assert(poll::frame_views(frames@) =~= seq![]);
    }
    while next < head && !in_flight
        invariant
            source.source_wf(),
            kind == source.source_kind(),
            states == (|counter: u64| source.source_state_at(counter)),
            0 <= start <= next <= head,
            in_flight ==> next < head && states(next) is Pending,
            walk_end(states, start, head as int) == walk_end(states, next as int, head as int),
            poll::frame_views(frames@) == walk_frames(states, kind, start, next as int),
            loss.unavailable == next - start - frames@.len(),
            loss.overwritten == start - from_counter,
        decreases head - next, (if in_flight { 0int } else { 1int }),
    {
        let ghost delivered = frames@;
        match source.read_state_at(next) {
            RingRead::Ready(frame) => {
                if frame.id.kind() != kind || frame.id.counter() != next {
                    loss.unavailable = loss.unavailable.saturating_add(1);
                } else {
                    frames.push(frame);
                    proof {
                        assert(poll::frame_views(frames@) =~= poll::frame_views(delivered).push(
                            frame@,
                        ));
                    }
                }
                next = next.saturating_add(1);
            },
            RingRead::Pending => {
                in_flight = true;
            },
            RingRead::Unavailable => {
                loss.unavailable = loss.unavailable.saturating_add(1);
                next = next.saturating_add(1);
            },
        }
        proof {
            assert(poll::frame_views(frames@) =~= walk_frames(states, kind, start, next as int));
        }
    }
    cursor.set_next_counter(next);
    RingPoll { frames, loss, from_counter, to_counter: next }
}

proof fn lemma_walk_bounds(states: spec_fn(u64) -> RingReadView, from: int, head: int)
    requires
        from <= head,
    ensures
        from <= walk_end(states, from, head) <= head,
        walk_end(states, from, head) < head ==> states(walk_end(states, from, head) as u64) is Pending,
        forall|c: int|
            from <= c < walk_end(states, from, head) ==> !(#[trigger] states(c as u64) is Pending),
    decreases head - from,
{
    if from < head && !(states(from as u64) is Pending) {
        lemma_walk_bounds(states, from + 1, head);
    }
}

proof fn lemma_walk_len(states: spec_fn(u64) -> RingReadView, kind: u8, from: int, to: int)
    requires
        from <= to,
    ensures
        walk_frames(states, kind, from, to).len() <= to - from,
    decreases to - from,
{
    if from < to {
        lemma_walk_len(states, kind, from, to - 1);
    }
}

/// Every counter a cursor moves over is accounted for exactly once: it was
/// delivered as a frame, or counted as overwritten, or counted as unavailable.
/// The cursor never passes the head and never moves back on a ring that has not
/// been reset.
pub proof fn law_poll_accounts_for_every_counter<S: RingFrameSource>(source: &S, next: u64)
    ensures
        ({
            let poll = polled_source(source, next);
            &&& poll.from_counter == next
            &&& poll.to_counter <= source.source_head()
            &&& next < source.source_head() ==> {
                &&& next <= poll.to_counter
                &&& poll.to_counter - next == poll.frames.len() + poll.loss.overwritten
                    + poll.loss.unavailable
                &&& poll.loss.spec_total() == poll.loss.overwritten + poll.loss.unavailable
            }
            &&& next >= source.source_head() ==> {
                &&& poll.frames.len() == 0
                &&& poll.loss.spec_total() == 0
                &&& poll.to_counter == source.source_head()
            }
        }),
{
    let states = |counter: u64| source.source_state_at(counter);
    let head = source.source_head() as int;
    if next < head {
        let floor = if head > source.source_capacity() {
            head - source.source_capacity()
        } else {
            0
        };
        let start = if next < floor {
            floor
        } else {
            next as int
        };
        lemma_walk_bounds(states, start, head);
        lemma_walk_len(states, source.source_kind(), start, walk_end(states, start, head));
    }
}

/// A cursor stops in front of an in-flight counter: where a poll does not reach
/// the head, the counter it stands on is pending, and the next poll retries it.
pub proof fn law_poll_waits_for_in_flight_counters<S: RingFrameSource>(source: &S, next: u64)
    requires
        next < source.source_head(),
    ensures
        ({
            let stop = polled_source(source, next).to_counter;
            stop < source.source_head() ==> source.source_state_at(stop) is Pending
        }),
{
    let states = |counter: u64| source.source_state_at(counter);
    let head = source.source_head() as int;
    let floor = if head > source.source_capacity() {
        head - source.source_capacity()
    } else {
        0
    };
    let start = if next < floor {
        floor
    } else {
        next as int
    };
    lemma_walk_bounds(states, start, head);
}

/// A second poll gives nothing: on a ring where nothing has happened since, polling
/// from where the last poll ended delivers no frame, reports no loss, and stays there.
pub proof fn law_polling_again_gives_nothing(
    kind: u8,
    head: u64,
    capacity: usize,
    states: spec_fn(u64) -> RingReadView,
    next: u64,
)
    ensures
        ({
            let stop = polled(kind, head, capacity, states, next).to_counter;
            let again = polled(kind, head, capacity, states, stop);
            &&& again.frames.len() == 0
            &&& again.loss == (RingLoss { overwritten: 0, unavailable: 0 })
            &&& again.to_counter == stop
        }),
{
    if next < head {
        let floor: int = if head > capacity {
            head - capacity
        } else {
            0
        };
        let start: int = if next < floor {
            floor
        } else {
            next as int
        };
        lemma_walk_bounds(states, start, head as int);
    }
}

/// The frames of a walk come in counter order, each from its own counter.
pub proof fn lemma_walk_order(
    states: spec_fn(u64) -> RingReadView,
    kind: u8,
    from: int,
    to: int,
)
    requires
        0 <= from <= to <= u64::MAX + 1,
    ensures
        forall|i: int|
            0 <= i < walk_frames(states, kind, from, to).len() ==> {
                let frame = #[trigger] walk_frames(states, kind, from, to)[i];
                &&& frame.id.spec_kind() == kind
                &&& from <= frame.id.spec_counter() < to
                &&& states(frame.id.spec_counter()) == RingReadView::Ready(frame)
            },
        forall|i: int, j: int|
            0 <= i < j < walk_frames(states, kind, from, to).len() ==> (
            #[trigger] walk_frames(states, kind, from, to)[i]).id.spec_counter() < (
            #[trigger] walk_frames(states, kind, from, to)[j]).id.spec_counter(),
    decreases to - from,
{
    if from < to {
        lemma_walk_order(states, kind, from, to - 1);
    }
}

/// Frames are delivered in counter order, never twice, and always the frame that
/// the source holds at its own counter.
pub proof fn law_poll_delivers_in_order<S: RingFrameSource>(source: &S, next: u64)
    ensures
        ({
            let poll = polled_source(source, next);
            &&& forall|i: int|
                0 <= i < poll.frames.len() ==> {
                    let frame = #[trigger] poll.frames[i];
                    &&& frame.id.spec_kind() == source.source_kind()
                    &&& next <= frame.id.spec_counter() < poll.to_counter
                    &&& source.source_state_at(frame.id.spec_counter()) == RingReadView::Ready(
                        frame,
                    )
                }
            &&& forall|i: int, j: int|
                0 <= i < j < poll.frames.len() ==> (#[trigger] poll.frames[i]).id.spec_counter() < (
                #[trigger] poll.frames[j]).id.spec_counter()
        }),
{
    let states = |counter: u64| source.source_state_at(counter);
    let head = source.source_head() as int;
    if next < head {
        let floor = if head > source.source_capacity() {
            head - source.source_capacity()
        } else {
            0
        };
        let start = if next < floor {
            floor
        } else {
            next as int
        };
        lemma_walk_bounds(states, start, head);
        lemma_walk_order(states, source.source_kind(), start, walk_end(states, start, head));
    }
}

/// Every step of a walk delivers its frame.
proof fn lemma_walk_delivers(
    states: spec_fn(u64) -> RingReadView,
    kind: u8,
    from: int,
    to: int,
    counter: int,
)
    requires
        from <= counter < to,
        walk_step(states, kind, counter).len() > 0,
    ensures
        walk_frames(states, kind, from, to).contains(walk_step(states, kind, counter)[0]),
    decreases to - from,
{
    let frame = walk_step(states, kind, counter)[0];
    let front = walk_frames(states, kind, from, to - 1);
    let all = walk_frames(states, kind, from, to);
    if counter < to - 1 {
        lemma_walk_delivers(states, kind, from, to - 1, counter);
        let i = choose|i: int| 0 <= i < front.len() && front[i] == frame;
        assert(all[i] == frame);
    } else {
        assert(all[front.len() as int] == frame);
    }
}

/// A poll delivers everything that can be read: it begins at the cursor, or at the oldest
/// counter that the ring retains where the cursor has fallen behind that, and counts what
/// it skipped; from there it passes every counter up to the first one in flight, or to
/// the head, and hands out each frame that reads as ready under its own counter and the
/// ring's kind.
pub proof fn law_polls_deliver_all_that_is_ready<S: RingFrameSource>(
    source: &S,
    next: u64,
    counter: u64,
    frame: FrameView,
)
    requires
        next < source.source_head(),
    ensures
        ({
            let head = source.source_head() as int;
            let poll = polled_source(source, next);
            let start: int = if head - next > source.source_capacity() {
                head - source.source_capacity()
            } else {
                next as int
            };
            &&& poll.from_counter == next
            &&& poll.loss.overwritten == start - next
            &&& start <= poll.to_counter <= head
            &&& poll.to_counter < head ==> source.source_state_at(poll.to_counter) is Pending
            &&& start <= counter < poll.to_counter ==> !(source.source_state_at(
                counter,
            ) is Pending)
            &&& start <= counter < poll.to_counter && source.source_state_at(counter)
                == RingReadView::Ready(frame) && frame.id.spec_kind() == source.source_kind()
                && frame.id.spec_counter() == counter ==> poll.frames.contains(frame)
        }),
{
    let states = |counter: u64| source.source_state_at(counter);
    let head = source.source_head() as int;
    let kind = source.source_kind();
    let start: int = if head - next > source.source_capacity() {
        head - source.source_capacity()
    } else {
        next as int
    };
    let end = walk_end(states, start, head);
    lemma_walk_bounds(states, start, head);
    if start <= counter < end {
        assert(states(counter) == states(counter as int as u64));
        if source.source_state_at(counter) == RingReadView::Ready(frame) && frame.id.spec_kind()
            == kind && frame.id.spec_counter() == counter {
            assert(walk_step(states, kind, counter as int) =~= seq![frame]);
            lemma_walk_delivers(states, kind, start, end, counter as int);
        }
    }
}

/// A cursor at or beyond the head finds nothing and moves to the head.
pub proof fn law_a_cursor_beyond_the_head_returns<S: RingFrameSource>(source: &S, next: u64)
    requires
        next >= source.source_head(),
    ensures
        polled_source(source, next) == (RingPollView {
            frames: seq![],
            loss: RingLoss { overwritten: 0, unavailable: 0 },
            from_counter: next,
            to_counter: source.source_head(),
        }),
{
}

} // verus!
