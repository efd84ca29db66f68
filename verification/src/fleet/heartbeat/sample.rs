use vstd::prelude::*;

use super::record::{FLEET_HEARTBEAT_FRAME_KIND, FLEET_HEARTBEAT_RING_KIND};
use crate::epoch::OrbitEpoch;
use crate::id::NetId64;
use crate::node::NodeId;
use crate::ring::cursor::source;
use crate::ring::cursor::RingFrameSource;
use crate::ring::{Frame, FrameView};

verus! {

/// One heartbeat of one member.
#[derive(Clone, Copy, Debug, PartialEq, Eq, Structural)]
pub struct FleetHeartbeat {
    pub id: NetId64,
    pub node_id: NodeId,
    pub captured_at: OrbitEpoch,
}

/// A heartbeat, as values.
pub struct HeartbeatView {
    pub id: NetId64,
    pub node: u16,
    pub captured_at_ms: u64,
}

impl View for FleetHeartbeat {
    type V = HeartbeatView;

    open spec fn view(&self) -> HeartbeatView {
        HeartbeatView {
            id: self.id,
            node: self.node_id.spec_get(),
            captured_at_ms: self.captured_at.spec_unix_ms(),
        }
    }
}

/// The heartbeat that a frame of the heartbeat ring stands for.
pub open spec fn heartbeat_of(frame: FrameView) -> Option<HeartbeatView> {
    if frame.id.spec_kind() == FLEET_HEARTBEAT_RING_KIND && frame.kind
        == FLEET_HEARTBEAT_FRAME_KIND {
        Some(
            HeartbeatView { id: frame.id, node: frame.id.spec_node(), captured_at_ms: frame.ver },
        )
    } else {
        None
    }
}

/// The heartbeat in the slot of `counter`, if the slot still belongs to that
/// counter.
pub open spec fn slot_heartbeat(slot: Option<FrameView>, counter: int) -> Option<HeartbeatView> {
    match slot {
        Some(frame) => if frame.id.spec_counter() == counter {
            heartbeat_of(frame)
        } else {
            None
        },
        None => None,
    }
}

/// The newest heartbeat of a member among the slots of a window at or after
/// `from`. The window starts at the counter `floor`.
pub open spec fn newest_from(
    window: Seq<Option<FrameView>>,
    floor: int,
    node: u16,
    from: int,
) -> Option<HeartbeatView>
    decreases window.len(),
{
    if window.len() <= from || window.len() == 0 {
        None
    } else {
        match slot_heartbeat(window.last(), floor + window.len() - 1) {
            Some(sample) => if sample.node == node {
                Some(sample)
            } else {
                newest_from(window.drop_last(), floor, node, from)
            },
            None => newest_from(window.drop_last(), floor, node, from),
        }
    }
}

/// The newest heartbeat of a member in a window that starts at `floor`.
pub open spec fn newest(window: Seq<Option<FrameView>>, floor: int, node: u16) -> Option<
    HeartbeatView,
> {
    newest_from(window, floor, node, 0)
}

/// Whether a list of heartbeats has one of a member.
pub open spec fn mentions(latest: Seq<HeartbeatView>, node: u16) -> bool {
    exists|i: int| 0 <= i < latest.len() && (#[trigger] latest[i]).node == node
}

/// Whether `latest` lists the members that were heard of most recently, at most
/// `size` of them, in slot order, each with its newest heartbeat.
pub open spec fn is_latest(
    latest: Seq<HeartbeatView>,
    window: Seq<Option<FrameView>>,
    floor: int,
    size: u8,
) -> bool {
    &&& latest.len() <= size
    &&& forall|i: int, j: int|
        0 <= i < j < latest.len() ==> (#[trigger] latest[i]).node < (#[trigger] latest[j]).node
    &&& forall|i: int|
        0 <= i < latest.len() ==> newest(window, floor, (#[trigger] latest[i]).node) == Some(
            latest[i],
        )
    &&& forall|node: u16|
        #![trigger newest(window, floor, node)]
        newest(window, floor, node) is Some && !mentions(latest, node) ==> {
            &&& latest.len() == size
            &&& forall|i: int|
                0 <= i < latest.len() ==> (#[trigger] latest[i]).id.spec_counter() > newest(
                    window,
                    floor,
                    node,
                )->Some_0.id.spec_counter()
        }
}

/// The values of a list of heartbeats.
pub open spec fn heartbeat_views(samples: Seq<FleetHeartbeat>) -> Seq<HeartbeatView> {
    samples.map_values(|sample: FleetHeartbeat| sample@)
}

impl FleetHeartbeat {
    /// The counter of the sample in the heartbeat ring.
    pub fn counter(&self) -> (counter: u64)
        ensures
            counter == self@.id.spec_counter(),
    {
        self.id.counter()
    }

    /// Milliseconds since the sample was captured.
    pub fn age_at(&self, now: OrbitEpoch) -> (age_ms: u64)
        ensures
            age_ms == self.captured_at.spec_age_at(now),
    {
        self.captured_at.age_at(now)
    }

    /// Whether the sample is at most `max_age_ms` old.
    pub fn is_fresh_at(&self, now: OrbitEpoch, max_age_ms: u128) -> (fresh: bool)
        ensures
            fresh == (self.captured_at.spec_age_at(now) <= max_age_ms),
            fresh == self.captured_at.spec_is_fresh_at(now, max_age_ms),
    {
        self.captured_at.is_fresh_at(now, max_age_ms)
    }

    /// The heartbeat that a frame stands for.
    pub fn from_frame(frame: &Frame) -> (sample: Option<FleetHeartbeat>)
        ensures
            match sample {
                Some(sample) => heartbeat_of(frame@) == Some(sample@),
                None => heartbeat_of(frame@) is None,
            },
    {
        if frame.id.kind() != FLEET_HEARTBEAT_RING_KIND {
            return None;
        }
        if frame.kind != FLEET_HEARTBEAT_FRAME_KIND {
            return None;
        }
        Some(
            FleetHeartbeat {
                id: frame.id,
                node_id: NodeId::new(frame.id.node()),
                captured_at: OrbitEpoch::from_unix_ms(frame.ver),
            },
        )
    }
}

/// A sample found among newer slots is found among all slots.
proof fn lemma_newest_extends(
    window: Seq<Option<FrameView>>,
    floor: int,
    node: u16,
    from: int,
    lower: int,
)
    requires
        lower <= from,
        newest_from(window, floor, node, from) is Some,
    ensures
        newest_from(window, floor, node, lower) == newest_from(window, floor, node, from),
    decreases window.len(),
{
    let here = slot_heartbeat(window.last(), floor + window.len() - 1);
    if !(here matches Some(sample) && sample.node == node) {
        lemma_newest_extends(window.drop_last(), floor, node, from, lower);
    }
}

/// A newest sample stands in the slot of its own counter, which lies in the part
/// of the window that was searched.
proof fn lemma_newest_place(window: Seq<Option<FrameView>>, floor: int, node: u16, from: int)
    requires
        0 <= from,
        newest_from(window, floor, node, from) is Some,
    ensures
        newest_from(window, floor, node, from)->Some_0.node == node,
        floor + from <= newest_from(window, floor, node, from)->Some_0.id.spec_counter() < floor
            + window.len(),
    decreases window.len(),
{
    let here = slot_heartbeat(window.last(), floor + window.len() - 1);
    if !(here matches Some(sample) && sample.node == node) {
        lemma_newest_place(window.drop_last(), floor, node, from);
    }
}

/// A newest sample stands inside the window.
pub proof fn lemma_newest_in_window(window: Seq<Option<FrameView>>, floor: int, node: u16)
    ensures
        newest(window, floor, node) matches Some(sample) ==> floor <= sample.id.spec_counter()
            < floor + window.len(),
{
    if newest(window, floor, node) is Some {
        lemma_newest_place(window, floor, node, 0);
    }
}

/// One more slot adds its own sample, for a member that has no newer one.
proof fn lemma_newest_step(window: Seq<Option<FrameView>>, floor: int, node: u16, from: int)
    requires
        0 <= from < window.len(),
    ensures
        newest_from(window, floor, node, from) == (if newest_from(window, floor, node, from + 1)
            is Some {
            newest_from(window, floor, node, from + 1)
        } else {
            match slot_heartbeat(window[from], floor + from) {
                Some(sample) => if sample.node == node {
                    Some(sample)
                } else {
                    None
                },
                None => None,
            }
        }),
    decreases window.len(),
{
    let here = slot_heartbeat(window.last(), floor + window.len() - 1);
    if window.len() - 1 == from {
        assert(newest_from(window.drop_last(), floor, node, from) is None);
    } else if !(here matches Some(sample) && sample.node == node) {
        lemma_newest_step(window.drop_last(), floor, node, from);
        assert(window.drop_last()[from] == window[from]);
    }
}

/// Whether `latest` lists, in slot order, every member heard of in the slots of
/// the window at or after `from`, each with its newest heartbeat.
spec fn covers(
    latest: Seq<HeartbeatView>,
    window: Seq<Option<FrameView>>,
    floor: int,
    from: int,
) -> bool {
    &&& forall|i: int, j: int|
        0 <= i < j < latest.len() ==> (#[trigger] latest[i]).node < (#[trigger] latest[j]).node
    &&& forall|i: int|
        0 <= i < latest.len() ==> newest_from(
            window,
            floor,
            (#[trigger] latest[i]).node,
            from,
        ) == Some(latest[i])
    &&& forall|node: u16|
        #![trigger newest_from(window, floor, node, from)]
        newest_from(window, floor, node, from) is Some ==> mentions(latest, node)
}

proof fn lemma_covers_is_latest(
    latest: Seq<HeartbeatView>,
    window: Seq<Option<FrameView>>,
    floor: int,
    from: int,
    size: u8,
)
    requires
        0 <= from,
        covers(latest, window, floor, from),
        latest.len() <= size,
        from == 0 || latest.len() == size,
    ensures
        is_latest(latest, window, floor, size),
{
    assert forall|i: int| 0 <= i < latest.len() implies newest(
        window,
        floor,
        (#[trigger] latest[i]).node,
    ) == Some(latest[i]) by {
        lemma_newest_extends(window, floor, latest[i].node, from, 0);
    }
    assert forall|node: u16|
        #![trigger newest(window, floor, node)]
        newest(window, floor, node) is Some && !mentions(latest, node) implies {
        &&& latest.len() == size
        &&& forall|i: int|
            0 <= i < latest.len() ==> (#[trigger] latest[i]).id.spec_counter() > newest(
                window,
                floor,
                node,
            )->Some_0.id.spec_counter()
    } by {
        assert(newest_from(window, floor, node, from) is None);
        lemma_newest_place(window, floor, node, 0);
        lemma_older_than(window, floor, node, from);
        assert forall|i: int| 0 <= i < latest.len() implies (
        #[trigger] latest[i]).id.spec_counter() > newest(
            window,
            floor,
            node,
        )->Some_0.id.spec_counter() by {
            lemma_newest_place(window, floor, latest[i].node, from);
        }
    }
}

/// A member that is not heard of from `from` on was last heard of before.
proof fn lemma_older_than(window: Seq<Option<FrameView>>, floor: int, node: u16, from: int)
    requires
        0 <= from,
        newest(window, floor, node) is Some,
        newest_from(window, floor, node, from) is None,
    ensures
        newest(window, floor, node)->Some_0.id.spec_counter() < floor + from,
    decreases window.len(),
{
    if window.len() <= from {
        lemma_newest_place(window, floor, node, 0);
    } else {
        let here = slot_heartbeat(window.last(), floor + window.len() - 1);
        assert(!(here matches Some(sample) && sample.node == node));
        lemma_older_than(window.drop_last(), floor, node, from);
    }
}

/// The position of a member in a list that is in slot order, or where it belongs.
fn place_of(latest: &Vec<FleetHeartbeat>, node: u16) -> (place: (usize, bool))
    requires
        forall|i: int, j: int|
            0 <= i < j < latest@.len() ==> (#[trigger] latest@[i])@.node < (
            #[trigger] latest@[j])@.node,
    ensures
        place.0 <= latest@.len(),
        forall|i: int| 0 <= i < place.0 ==> (#[trigger] latest@[i])@.node < node,
        place.1 ==> place.0 < latest@.len() && latest@[place.0 as int]@.node == node,
        !place.1 ==> forall|i: int| place.0 <= i < latest@.len() ==> (#[trigger] latest@[i])@.node
            > node,
{
    let mut at: usize = 0;
    while at < latest.len()
        invariant
            at <= latest@.len(),
            forall|i: int, j: int|
                0 <= i < j < latest@.len() ==> (#[trigger] latest@[i])@.node < (
                #[trigger] latest@[j])@.node,
            forall|i: int| 0 <= i < at ==> (#[trigger] latest@[i])@.node < node,
        decreases latest@.len() - at,
    {
        let here: u16 = latest[at].node_id.get();
        if here == node {
            return (at, true);
        }
        if here > node {
            return (at, false);
        }
        at = at + 1;
    }
    (at, false)
}

/// The most recent heartbeats in the retained window of `source`, one per member,
/// until `size` members have been heard of.
pub fn collect_latest<S: RingFrameSource>(source: &S, size: u8) -> (latest: Vec<FleetHeartbeat>)
    requires
        source.source_wf(),
        size > 0,
    ensures
        is_latest(
            heartbeat_views(latest@),
            source::window(source),
            source::window_floor(source.source_head(), source.source_capacity()),
            size,
        ),
{
    let head: u64 = source.head();
    let capacity: u64 = source.capacity() as u64;
    let floor: u64 = head.saturating_sub(capacity);
    let ghost window = source::window(source);
    let mut latest: Vec<FleetHeartbeat> = Vec::new();
    let mut counter: u64 = head;
    while counter > floor && latest.len() < size as usize
        invariant
            source.source_wf(),
            head == source.source_head(),
            floor <= counter <= head,
            floor == source::window_floor(source.source_head(), source.source_capacity()),
            window == source::window(source),
            latest@.len() <= size,
            covers(heartbeat_views(latest@), window, floor as int, counter - floor),
        decreases counter,
    {
        let ghost seen = heartbeat_views(latest@);
        let ghost from = counter - floor - 1;
        counter = counter - 1;
        let slot = source.read_at(counter);
        proof {
            assert(window[from] == source.source_read_at(counter));
            assert forall|node: u16| true implies newest_from(
                window,
                floor as int,
                node,
                from,
            ) == (if newest_from(window, floor as int, node, from + 1) is Some {
                newest_from(window, floor as int, node, from + 1)
            } else {
                match slot_heartbeat(window[from], floor + from) {
                    Some(sample) => if sample.node == node {
                        Some(sample)
                    } else {
                        None
                    },
                    None => None,
                }
            }) by {
                lemma_newest_step(window, floor as int, node, from);
            }
        }
        match slot {
            Some(frame) => {
                if frame.id.counter() == counter {
                    match FleetHeartbeat::from_frame(&frame) {
                        Some(sample) => {
                            proof {
                                assert forall|i: int, j: int| 0 <= i < j < latest@.len() implies (
                                #[trigger] latest@[i])@.node < (#[trigger] latest@[j])@.node by {
                                    assert(seen[i].node < seen[j].node);
                                }
                            }
                            let place = place_of(&latest, sample.node_id.get());
                            if !place.1 {
                                let ghost before = latest@;
                                latest.insert(place.0, sample);
                                proof {
                                    lemma_covers_insert(
                                        seen,
                                        heartbeat_views(latest@),
                                        window,
                                        floor as int,
                                        from,
                                        place.0 as int,
                                        sample@,
                                        before,
                                        latest@,
                                    );
                                }
                            } else {
                                proof {
                                    let at = place.0 as int;
                                    assert(seen[at].node == sample@.node);
                                    assert(newest_from(
                                        window,
                                        floor as int,
                                        seen[at].node,
                                        from + 1,
                                    ) == Some(seen[at]));
                                }
                            }
                        },
                        None => {},
                    }
                }
            },
            None => {},
        }
    }
    proof {
        lemma_covers_is_latest(
            heartbeat_views(latest@),
            window,
            floor as int,
            counter - floor,
            size,
        );
    }
    latest
}

proof fn lemma_covers_insert(
    seen: Seq<HeartbeatView>,
    after: Seq<HeartbeatView>,
    window: Seq<Option<FrameView>>,
    floor: int,
    from: int,
    at: int,
    sample: HeartbeatView,
    before_samples: Seq<FleetHeartbeat>,
    after_samples: Seq<FleetHeartbeat>,
)
    requires
        0 <= from < window.len(),
        covers(seen, window, floor, from + 1),
        0 <= at <= seen.len(),
        seen == heartbeat_views(before_samples),
        after == heartbeat_views(after_samples),
        after_samples.len() == before_samples.len() + 1,
        forall|i: int| 0 <= i < at ==> after_samples[i] == before_samples[i],
        after_samples[at]@ == sample,
        forall|i: int| at < i < after_samples.len() ==> after_samples[i] == before_samples[i - 1],
        slot_heartbeat(window[from], floor + from) == Some(sample),
        forall|i: int| 0 <= i < at ==> (#[trigger] before_samples[i])@.node < sample.node,
        forall|i: int| at <= i < seen.len() ==> (#[trigger] before_samples[i])@.node > sample.node,
    ensures
        covers(after, window, floor, from),
{
    assert forall|i: int| 0 <= i < at implies #[trigger] after[i] == seen[i] by {
        assert(after_samples[i] == before_samples[i]);
    }
    assert forall|i: int| at < i < after.len() implies #[trigger] after[i] == seen[i - 1] by {
        assert(after_samples[i] == before_samples[i - 1]);
    }
    assert forall|i: int| 0 <= i < seen.len() implies (#[trigger] seen[i]).node != sample.node by {
        assert(before_samples[i]@ == seen[i]);
    }
    assert(newest_from(window, floor, sample.node, from + 1) is None) by {
        if newest_from(window, floor, sample.node, from + 1) is Some {
            assert(mentions(seen, sample.node));
        }
    }
    lemma_newest_step(window, floor, sample.node, from);
    assert forall|i: int, j: int| 0 <= i < j < after.len() implies (#[trigger] after[i]).node < (
    #[trigger] after[j]).node by {
        if i < at {
            assert(before_samples[i]@.node < sample.node);
        }
        if j > at {
            assert(before_samples[j - 1]@.node > sample.node);
        }
        if i != at && j != at {
            let si = if i < at {
                i
            } else {
                i - 1
            };
            let sj = if j < at {
                j
            } else {
                j - 1
            };
            assert(seen[si].node < seen[sj].node);
        }
    }
    assert forall|i: int| 0 <= i < after.len() implies newest_from(
        window,
        floor,
        (#[trigger] after[i]).node,
        from,
    ) == Some(after[i]) by {
        lemma_newest_step(window, floor, after[i].node, from);
        if i < at {
            assert(newest_from(window, floor, seen[i].node, from + 1) == Some(seen[i]));
        } else if i > at {
            assert(newest_from(window, floor, seen[i - 1].node, from + 1) == Some(seen[i - 1]));
        }
    }
    assert forall|node: u16|
        #![trigger newest_from(window, floor, node, from)]
        newest_from(window, floor, node, from) is Some implies mentions(after, node) by {
        lemma_newest_step(window, floor, node, from);
        if node == sample.node {
            assert(after[at].node == node);
        } else {
            assert(newest_from(window, floor, node, from + 1) is Some);
            assert(mentions(seen, node));
            let i = choose|i: int| 0 <= i < seen.len() && (#[trigger] seen[i]).node == node;
            let k = if i < at {
                i
            } else {
                i + 1
            };
            assert(after[k] == seen[i]);
        }
    }
}

/// Whether slot `i` of a window that starts at the counter `floor` holds a heartbeat of a
/// member: the frame belongs to that counter, to the heartbeat ring and to its message
/// class, and the member wrote it.
pub open spec fn beats_at(window: Seq<Option<FrameView>>, floor: int, node: u16, i: int) -> bool {
    window[i] matches Some(frame) && frame.id.spec_counter() == floor + i && frame.id.spec_kind()
        == 221 && frame.kind == 1 && frame.id.spec_node() == node
}

/// The newest heartbeat of a member is its last one in the window, with the time that
/// the frame carries; a member without one in the window has none.
pub proof fn law_the_newest_heartbeat_is_the_last_one(
    window: Seq<Option<FrameView>>,
    floor: int,
    node: u16,
    at: int,
)
    ensures
        (forall|i: int| 0 <= i < window.len() ==> !#[trigger] beats_at(window, floor, node, i))
            ==> newest(window, floor, node) is None,
        0 <= at < window.len() && beats_at(window, floor, node, at) && (forall|i: int|
            at < i < window.len() ==> !#[trigger] beats_at(window, floor, node, i)) ==> newest(
            window,
            floor,
            node,
        ) == Some(
            HeartbeatView {
                id: window[at]->Some_0.id,
                node,
                captured_at_ms: window[at]->Some_0.ver,
            },
        ),
    decreases window.len(),
{
    if window.len() > 0 {
        let front = window.drop_last();
        let last = window.len() - 1;
        assert(window.last() == window[last]);
        law_the_newest_heartbeat_is_the_last_one(front, floor, node, at);
        assert(forall|i: int|
            0 <= i < front.len() ==> #[trigger] beats_at(front, floor, node, i) == beats_at(
                window,
                floor,
                node,
                i,
            ));
        if forall|i: int| 0 <= i < window.len() ==> !#[trigger] beats_at(window, floor, node, i) {
            assert(!beats_at(window, floor, node, last));
            assert forall|i: int| 0 <= i < front.len() implies !#[trigger] beats_at(
                front,
                floor,
                node,
                i,
            ) by {
                assert(!beats_at(window, floor, node, i));
            }
        }
        if 0 <= at < window.len() && beats_at(window, floor, node, at) && (forall|i: int|
            at < i < window.len() ==> !#[trigger] beats_at(window, floor, node, i)) {
            if at < last {
                assert(!beats_at(window, floor, node, last));
                assert(beats_at(front, floor, node, at));
                assert forall|i: int| at < i < front.len() implies !#[trigger] beats_at(
                    front,
                    floor,
                    node,
                    i,
                ) by {
                    assert(!beats_at(window, floor, node, i));
                }
            } else {
                assert(beats_at(window, floor, node, last));
            }
        }
    }
}

/// A list of heartbeats is shown heartbeat by heartbeat, in the same order.
pub proof fn law_heartbeats_are_shown_in_place(samples: Seq<FleetHeartbeat>, i: int)
    ensures
        heartbeat_views(samples).len() == samples.len(),
        0 <= i < samples.len() ==> heartbeat_views(samples)[i] == samples[i]@,
{
}

} // verus!
