//! Subscribing to the rings of a fleet.

use vstd::prelude::*;

use super::model;
use super::Fleet;
use crate::ring::cursor;
use crate::ring::cursor::{RingCursor, RingLoss, RingPoll};
use crate::ring::{Frame, Ring, RingSpec, RingView};
use crate::OrbitTyped;

verus! {

/// Caller-owned position in every lane of one ring.
#[derive(Clone, Debug, PartialEq, Eq)]
pub struct FleetLaneCursor {
    lanes: Vec<RingCursor>,
}

/// The next counters of a list of cursors.
pub open spec fn next_counters(cursors: Seq<RingCursor>) -> Seq<u64> {
    cursors.map_values(|cursor: RingCursor| cursor.spec_next())
}

impl View for FleetLaneCursor {
    type V = Seq<u64>;

    closed spec fn view(&self) -> Seq<u64> {
        next_counters(self.lanes@)
    }
}

/// Result of walking every lane of one ring.
#[derive(Clone, Debug, PartialEq, Eq)]
pub struct FleetLanePoll {
    pub frames: Vec<Frame>,
    pub loss: RingLoss,
}

impl Fleet {
    /// Cursor that starts after every counter currently claimed for `T`. Useful
    /// for subscribers that only want future writes.
    pub fn cursor_at_head<T: OrbitTyped>(&self) -> (cursor: RingCursor)
        requires
            self.wf(),
            self@.compatible(T::KIND, RingSpec::declared::<T>()),
        ensures
            cursor.spec_next() == self@.home(T::KIND, RingSpec::declared::<T>()).head(),
    {
        RingCursor::from_counter(self.head::<T>())
    }

    /// Cursor that starts at counter 0 for `T`.
    pub fn cursor_from_start<T: OrbitTyped>(&self) -> (cursor: RingCursor)
        ensures
            cursor.spec_next() == 0,
    {
        RingCursor::from_start()
    }

    /// Walk `cursor` toward the current claim head for `T`, stopping at an
    /// in-flight counter and reporting definitive losses.
    pub fn poll_ring<T: OrbitTyped>(&self, cursor: &mut RingCursor) -> (poll: RingPoll)
        requires
            self.wf(),
            self@.compatible(T::KIND, RingSpec::declared::<T>()),
        ensures
            poll@ == self@.home(T::KIND, RingSpec::declared::<T>()).polled(old(cursor).spec_next()),
            final(cursor).spec_next() == poll.to_counter,
    {
        proof {
            self.lemma_consistent();
            model::lemma_family_consistent(self@, T::KIND, RingSpec::declared::<T>());
        }
        match self.lane::<T>() {
            Some(lane) => poll_lane(lane, cursor),
            None => poll_nothing(
                cursor,
                Ghost(RingView::fresh(T::KIND, RingSpec::declared::<T>())),
            ),
        }
    }

    /// Cursor that starts after everything currently claimed in any lane of `T`.
    pub fn lane_cursor_at_head<T: OrbitTyped>(&self) -> (cursor: FleetLaneCursor)
        requires
            self.wf(),
            self@.compatible(T::KIND, RingSpec::declared::<T>()),
        ensures
            cursor@ == Seq::new(
                self@.family(T::KIND, RingSpec::declared::<T>()).lanes.len(),
                |i: int|
                    self@.family(T::KIND, RingSpec::declared::<T>()).lanes[i].head() as u64,
            ),
    {
        let ghost spec = RingSpec::declared::<T>();
        let ghost family = self@.family(T::KIND, spec);
        proof {
            self.lemma_consistent();
            model::lemma_family_consistent(self@, T::KIND, spec);
        }
        let count: usize = self.lane_len::<T>();
        let mut lanes: Vec<RingCursor> = Vec::new();
        let mut i: usize = 0;
        while i < count
            invariant
                self.wf(),
                self@.compatible(T::KIND, spec),
                spec == RingSpec::declared::<T>(),
                family == self@.family(T::KIND, spec),
                i <= count == family.lanes.len(),
                family.consistent(self@.size),
                next_counters(lanes@) == Seq::new(
                    i as nat,
                    |j: int| family.lanes[j].head() as u64,
                ),
            decreases count - i,
        {
            let head: u64 = match self.lane_number::<T>(i) {
                Some(lane) => lane.head(),
                None => 0,
            };
            let ghost before = lanes@;
            lanes.push(RingCursor::from_counter(head));
            i = i + 1;
            proof {
                assert(next_counters(lanes@) =~= next_counters(before).push(head));
                assert(next_counters(lanes@) =~= Seq::new(
                    i as nat,
                    |j: int| family.lanes[j].head() as u64,
                ));
            }
        }
        FleetLaneCursor { lanes }
    }

    /// Cursor that starts at counter 0 in every lane of `T`.
    pub fn lane_cursor_from_start<T: OrbitTyped>(&self) -> (cursor: FleetLaneCursor)
        requires
            self.wf(),
            self@.compatible(T::KIND, RingSpec::declared::<T>()),
        ensures
            cursor@ == Seq::new(
                self@.family(T::KIND, RingSpec::declared::<T>()).lanes.len(),
                |i: int| 0u64,
            ),
    {
        let count: usize = self.lane_len::<T>();
        let mut lanes: Vec<RingCursor> = Vec::new();
        let mut i: usize = 0;
        while i < count
            invariant
                i <= count,
                next_counters(lanes@) == Seq::new(i as nat, |j: int| 0u64),
            decreases count - i,
        {
            let ghost before = lanes@;
            lanes.push(RingCursor::from_start());
            i = i + 1;
            proof {
                assert(next_counters(lanes@) =~= next_counters(before).push(0));
                assert(next_counters(lanes@) =~= Seq::new(i as nat, |j: int| 0u64));
            }
        }
        FleetLaneCursor { lanes }
    }

    /// Walk every lane of `T` toward its head: the frames come lane by lane, each
    /// lane in counter order, and the losses are summed.
    pub fn poll_lanes<T: OrbitTyped>(&self, cursor: &mut FleetLaneCursor) -> (poll: FleetLanePoll)
        requires
            self.wf(),
            self@.compatible(T::KIND, RingSpec::declared::<T>()),
            old(cursor)@.len() == self@.family(T::KIND, RingSpec::declared::<T>()).lanes.len(),
        ensures
            ({
                let lanes = self@.family(T::KIND, RingSpec::declared::<T>()).lanes;
                &&& cursor::poll::frame_views(poll.frames@) == model::lane_frames(
                    lanes,
                    old(cursor)@,
                )
                &&& poll.loss == model::lane_loss(lanes, old(cursor)@)
                &&& final(cursor)@ == model::lane_next(lanes, old(cursor)@)
            }),
    {
        let ghost spec = RingSpec::declared::<T>();
        let ghost lanes = self@.family(T::KIND, spec).lanes;
        let ghost next = cursor@;
        proof {
            self.lemma_consistent();
            model::lemma_family_consistent(self@, T::KIND, spec);
        }
        let mut frames: Vec<Frame> = Vec::new();
        let mut loss = RingLoss::none();
        let mut i: usize = 0;
        let count: usize = cursor.lanes.len();
        proof {
            assert(cursor::poll::frame_views(frames@) =~= seq![]);
            assert(lanes.take(0) =~= seq![]);
        }
        while i < count
            invariant
                self.wf(),
                self@.compatible(T::KIND, spec),
                spec == RingSpec::declared::<T>(),
                lanes == self@.family(T::KIND, spec).lanes,
                next.len() == lanes.len(),
                i <= count == lanes.len(),
                cursor.lanes@.len() == count,
                forall|j: int|
                    i <= j < count ==> (#[trigger] cursor.lanes@[j]).spec_next() == next[j],
                forall|j: int|
                    0 <= j < i ==> (#[trigger] cursor.lanes@[j]).spec_next() == lanes[j].polled(
                        next[j],
                    ).to_counter,
                cursor::poll::frame_views(frames@) == model::lane_frames(
                    lanes.take(i as int),
                    next.take(i as int),
                ),
                loss == model::lane_loss(lanes.take(i as int), next.take(i as int)),
            decreases count - i,
        {
            let mut lane_cursor = cursor.lanes[i];
            let mut poll = match self.lane_number::<T>(i) {
                Some(lane) => poll_lane(lane, &mut lane_cursor),
                None => poll_nothing(
                    &mut lane_cursor,
                    Ghost(RingView::fresh(T::KIND, RingSpec::declared::<T>())),
                ),
            };
            cursor.lanes.set(i, lane_cursor);
            let ghost before = frames@;
            let ghost polled = poll.frames@;
            frames.append(&mut poll.frames);
            loss.overwritten = loss.overwritten.saturating_add(poll.loss.overwritten);
            loss.unavailable = loss.unavailable.saturating_add(poll.loss.unavailable);
            i = i + 1;
            proof {
                assert(lanes.take(i as int).drop_last() =~= lanes.take(i - 1));
                assert(next.take(i as int).drop_last() =~= next.take(i - 1));
                assert(cursor::poll::frame_views(frames@) =~= cursor::poll::frame_views(before)
                    + cursor::poll::frame_views(polled));
            }
        }
        proof {
            assert(lanes.take(i as int) =~= lanes);
            assert(next.take(i as int) =~= next);
            assert(cursor@ =~= model::lane_next(lanes, next));
        }
        FleetLanePoll { frames, loss }
    }
}

fn poll_lane(lane: &Ring, cursor: &mut RingCursor) -> (poll: RingPoll)
    requires
        lane.wf(),
    ensures
        poll@ == lane@.polled(old(cursor).spec_next()),
        final(cursor).spec_next() == poll.to_counter,
{
    proof {
        assert((|counter: u64| lane@.state_at(counter)) =~= (|counter: u64|
            cursor::RingFrameSource::source_state_at(lane, counter)));
    }
    cursor::poll_ring(lane, cursor)
}

/// A poll of a ring that does not exist yet.
fn poll_nothing(cursor: &mut RingCursor, Ghost(lane): Ghost<RingView>) -> (poll: RingPoll)
    requires
        lane.log.len() == 0,
    ensures
        poll@ == lane.polled(old(cursor).spec_next()),
        final(cursor).spec_next() == poll.to_counter,
{
    let from_counter: u64 = cursor.next_counter();
    cursor.set_next_counter(0);
    let poll = RingPoll {
        frames: Vec::new(),
        loss: RingLoss::none(),
        from_counter,
        to_counter: 0,
    };
    proof {
        assert(poll@.frames =~= seq![]);
    }
    poll
}

/// A list of cursors is shown position by position, in the same order.
pub proof fn law_cursors_are_shown_in_place(cursors: Seq<RingCursor>, i: int)
    ensures
        next_counters(cursors).len() == cursors.len(),
        0 <= i < cursors.len() ==> next_counters(cursors)[i] == cursors[i].spec_next(),
{
}

} // verus!
