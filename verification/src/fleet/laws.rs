//! What holds of every fleet and every sequence of publishes.

use vstd::prelude::*;

use super::model;
use super::model::FleetView;
use crate::id;
use crate::id::NetId64;
use crate::ring;
use crate::ring::cursor::walk;
use crate::ring::cursor::RingLoss;
use crate::ring::registry;
use crate::ring::{FrameView, RingSpec, RingTopology, RingView};

verus! {

/// Publishing keeps the fleet consistent.
pub proof fn law_publishing_keeps_the_fleet_consistent(
    fleet: FleetView,
    kind: u8,
    spec: RingSpec,
    frame_kind: u8,
    ver: u64,
    payload: Seq<u8>,
)
    requires
        fleet.consistent(),
        fleet.has_room(kind, spec, 1),
        payload.len() <= spec.payload_capacity,
    ensures
        fleet.published(kind, spec, frame_kind, ver, payload).consistent(),
        fleet.published(kind, spec, frame_kind, ver, payload).compatible(kind, spec),
{
    let after = fleet.published(kind, spec, frame_kind, ver, payload);
    let lane = registry::lane_of(spec.topology, fleet.node);
    let home = fleet.home(kind, spec);
    model::lemma_family_consistent(fleet, kind, spec);
    id::lemma_minted_fields(kind, fleet.node, home.head());
    let extended = home.appended(fleet.node, frame_kind, ver, payload);
    assert(extended.consistent()) by {
        assert forall|i: int| 0 <= i < extended.log.len() implies {
            let frame = #[trigger] extended.log[i];
            &&& frame.id.spec_kind() == extended.kind
            &&& frame.id.spec_counter() == i % (id::COUNTER_SPAN as int)
            &&& frame.payload.len() <= extended.spec.payload_capacity
        } by {
            if i < home.log.len() {
                assert(extended.log[i] == home.log[i]);
            }
        }
    }
    assert forall|other: u8| #[trigger] after.rings.contains_key(other) implies
        after.rings[other].kind == other && after.rings[other].consistent(after.size) by {
        if other != kind {
            assert(fleet.rings.contains_key(other));
        } else {
            let family = after.rings[kind];
            assert forall|i: int| 0 <= i < family.lanes.len() implies {
                &&& (#[trigger] family.lanes[i]).kind == family.kind
                &&& family.lanes[i].spec == family.spec
                &&& family.lanes[i].consistent()
                &&& family.lanes[i].head() <= u64::MAX
            } by {
                if i != lane {
                    assert(family.lanes[i] == fleet.family(kind, spec).lanes[i]);
                }
            }
        }
    }
}

/// Read your publish: the identifier that a publish returns reads back exactly the
/// frame that was published.
pub proof fn law_a_publish_is_read_back(
    fleet: FleetView,
    kind: u8,
    spec: RingSpec,
    frame_kind: u8,
    ver: u64,
    payload: Seq<u8>,
)
    requires
        fleet.consistent(),
        fleet.compatible(kind, spec),
        spec.capacity <= id::COUNTER_SPAN || fleet.home(kind, spec).head() < id::COUNTER_SPAN,
    ensures
        fleet.published(kind, spec, frame_kind, ver, payload).found(
            NetId64::minted(kind, fleet.node, fleet.home(kind, spec).head()),
        ) == Some(fleet.next_frame(kind, spec, frame_kind, ver, payload)),
        fleet.published(kind, spec, frame_kind, ver, payload).home(kind, spec).latest() == Some(
            fleet.next_frame(kind, spec, frame_kind, ver, payload),
        ),
{
    model::lemma_family_consistent(fleet, kind, spec);
    id::lemma_minted_fields(kind, fleet.node, fleet.home(kind, spec).head());
    ring::law_read_your_write(fleet.home(kind, spec), fleet.node, frame_kind, ver, payload);
}

/// Kinds are independent: a publish of one kind changes no ring of another kind
/// and no frame that can be read from it.
pub proof fn law_kinds_are_independent(
    fleet: FleetView,
    kind: u8,
    spec: RingSpec,
    frame_kind: u8,
    ver: u64,
    payload: Seq<u8>,
    other: NetId64,
    other_spec: RingSpec,
)
    requires
        other.spec_kind() != kind,
    ensures
        fleet.published(kind, spec, frame_kind, ver, payload).found(other) == fleet.found(other),
        fleet.published(kind, spec, frame_kind, ver, payload).family(other.spec_kind(), other_spec)
            == fleet.family(other.spec_kind(), other_spec),
{
}

/// Members keep to their lanes: where each member has a lane of its own, a publish
/// of one member leaves the lanes of all others as they were.
pub proof fn law_members_keep_to_their_lanes(
    fleet: FleetView,
    kind: u8,
    spec: RingSpec,
    frame_kind: u8,
    ver: u64,
    payload: Seq<u8>,
    other: u16,
)
    requires
        fleet.consistent(),
        fleet.compatible(kind, spec),
        spec.topology == RingTopology::PerNode,
        other < fleet.size,
        other != fleet.node,
    ensures
        fleet.published(kind, spec, frame_kind, ver, payload).family(kind, spec).home(other)
            == fleet.family(kind, spec).home(other),
{
    model::lemma_family_consistent(fleet, kind, spec);
}

/// Minting never repeats: successive identifiers of a kind differ, and so do those
/// of different kinds, as long as the counters fit the counter field.
pub proof fn law_minted_identifiers_differ(fleet: FleetView, kind: u8, later_kind: u8)
    requires
        fleet.consistent(),
        fleet.minted[kind as int] < id::COUNTER_SPAN - 1,
        fleet.minted[later_kind as int] < id::COUNTER_SPAN - 1,
    ensures
        NetId64::minted(kind, fleet.node, fleet.minted[kind as int] as nat) != NetId64::minted(
            later_kind,
            fleet.node,
            fleet.after_mint(kind).minted[later_kind as int] as nat,
        ),
{
    let first = fleet.minted[kind as int] as nat;
    let second = fleet.after_mint(kind).minted[later_kind as int] as nat;
    id::lemma_minted_fields(kind, fleet.node, first);
    id::lemma_minted_fields(later_kind, fleet.node, second);
    if kind == later_kind {
        id::law_minted_ids_are_distinct(kind, fleet.node, first, fleet.node, second);
    }
}

/// Lanes that have nothing new, except one with a single new frame.
proof fn lemma_single_new_frame(
    lanes: Seq<RingView>,
    next: Seq<u64>,
    at: int,
    frame: FrameView,
)
    requires
        next.len() == lanes.len(),
        forall|i: int|
            0 <= i < lanes.len() ==> (#[trigger] lanes[i].polled(next[i])).loss == (RingLoss {
                overwritten: 0,
                unavailable: 0,
            }),
        forall|i: int|
            0 <= i < lanes.len() ==> (#[trigger] lanes[i].polled(next[i])).frames == (if i == at {
                seq![frame]
            } else {
                seq![]
            }),
    ensures
        model::lane_frames(lanes, next) == (if 0 <= at < lanes.len() {
            seq![frame]
        } else {
            seq![]
        }),
        model::lane_loss(lanes, next) == (RingLoss { overwritten: 0, unavailable: 0 }),
    decreases lanes.len(),
{
    if lanes.len() > 0 {
        let front = lanes.drop_last();
        let front_next = next.drop_last();
        assert forall|i: int| 0 <= i < front.len() implies (#[trigger] front[i].polled(
            front_next[i],
        )).loss == (RingLoss { overwritten: 0, unavailable: 0 }) by {
            assert(lanes[i].polled(next[i]).loss == (RingLoss { overwritten: 0, unavailable: 0 }));
        }
        assert forall|i: int| 0 <= i < front.len() implies (#[trigger] front[i].polled(
            front_next[i],
        )).frames == (if i == at {
            seq![frame]
        } else {
            seq![]
        }) by {
            assert(lanes[i].polled(next[i]).loss == (RingLoss { overwritten: 0, unavailable: 0 }));
        }
        lemma_single_new_frame(front, front_next, at, frame);
        let last = lanes.len() - 1;
        assert(lanes[last].polled(next[last]).loss == (RingLoss {
            overwritten: 0,
            unavailable: 0,
        }));
        assert(lanes.last().polled(next.last()).frames == (if last == at {
            seq![frame]
        } else {
            seq![]
        }));
        assert(model::lane_frames(lanes, next) =~= model::lane_frames(front, front_next)
            + lanes.last().polled(next.last()).frames);
    }
}

/// Every subscriber that was up to date receives exactly the new frame of a
/// publish, once, without loss, whichever member published it.
pub proof fn law_subscribers_receive_each_publish(
    fleet: FleetView,
    kind: u8,
    spec: RingSpec,
    frame_kind: u8,
    ver: u64,
    payload: Seq<u8>,
)
    requires
        fleet.consistent(),
        fleet.has_room(kind, spec, 1),
        payload.len() <= spec.payload_capacity,
        forall|i: int|
            0 <= i < fleet.family(kind, spec).lanes.len() ==> (#[trigger] fleet.family(
                kind,
                spec,
            ).lanes[i]).head() < id::COUNTER_SPAN,
    ensures
        ({
            let after = fleet.published(kind, spec, frame_kind, ver, payload);
            let next = Seq::new(
                fleet.family(kind, spec).lanes.len(),
                |i: int| fleet.family(kind, spec).lanes[i].head() as u64,
            );
            let frame = fleet.next_frame(kind, spec, frame_kind, ver, payload);
            &&& model::lane_frames(after.family(kind, spec).lanes, next) == seq![frame]
            &&& model::lane_loss(after.family(kind, spec).lanes, next) == (RingLoss {
                overwritten: 0,
                unavailable: 0,
            })
        }),
{
    let after = fleet.published(kind, spec, frame_kind, ver, payload);
    let before_lanes = fleet.family(kind, spec).lanes;
    let lanes = after.family(kind, spec).lanes;
    let next = Seq::new(before_lanes.len(), |i: int| before_lanes[i].head() as u64);
    let frame = fleet.next_frame(kind, spec, frame_kind, ver, payload);
    let at = registry::lane_of(spec.topology, fleet.node);
    model::lemma_family_consistent(fleet, kind, spec);
    law_publishing_keeps_the_fleet_consistent(fleet, kind, spec, frame_kind, ver, payload);
    model::lemma_family_consistent(after, kind, spec);
    assert forall|i: int| 0 <= i < lanes.len() implies (#[trigger] lanes[i].polled(next[i])).loss
        == (RingLoss { overwritten: 0, unavailable: 0 }) && lanes[i].polled(next[i]).frames == (if i
        == at {
        seq![frame]
    } else {
        seq![]
    }) by {
        assert(before_lanes[i].head() < id::COUNTER_SPAN);
        ring::law_poll_delivers_the_retained_log(lanes[i], next[i]);
        let head = lanes[i].head() as int;
        if i == at {
            assert(lanes[i].log.subrange(next[i] as int, head) =~= seq![frame]);
        } else {
            assert(lanes[i] == before_lanes[i]);
            assert(lanes[i].log.subrange(next[i] as int, head) =~= seq![]);
        }
    }
    lemma_single_new_frame(lanes, next, at, frame);
}

/// Lanes that have nothing new deliver nothing.
proof fn lemma_quiet_lanes(lanes: Seq<RingView>, next: Seq<u64>)
    requires
        next.len() == lanes.len(),
        forall|i: int|
            0 <= i < lanes.len() ==> {
                let poll = #[trigger] lanes[i].polled(next[i]);
                &&& poll.frames.len() == 0
                &&& poll.loss == (RingLoss { overwritten: 0, unavailable: 0 })
                &&& poll.to_counter == next[i]
            },
    ensures
        model::lane_frames(lanes, next) == Seq::<FrameView>::empty(),
        model::lane_loss(lanes, next) == (RingLoss { overwritten: 0, unavailable: 0 }),
        model::lane_next(lanes, next) == next,
    decreases lanes.len(),
{
    if lanes.len() > 0 {
        let front = lanes.drop_last();
        let front_next = next.drop_last();
        let last = lanes.len() - 1;
        assert forall|i: int| 0 <= i < front.len() implies {
            let poll = #[trigger] front[i].polled(front_next[i]);
            &&& poll.frames.len() == 0
            &&& poll.loss == (RingLoss { overwritten: 0, unavailable: 0 })
            &&& poll.to_counter == front_next[i]
        } by {
            assert(lanes[i].polled(next[i]).frames.len() == 0);
        }
        lemma_quiet_lanes(front, front_next);
        assert(lanes[last].polled(next[last]).frames.len() == 0);
    }
    assert(model::lane_frames(lanes, next) =~= Seq::<FrameView>::empty());
    assert(model::lane_next(lanes, next) =~= next) by {
        assert forall|i: int| 0 <= i < lanes.len() implies lanes[i].polled(next[i]).to_counter
            == #[trigger] next[i] by {
            assert(lanes[i].polled(next[i]).frames.len() == 0);
        }
    }
}

/// A second poll gives nothing: where nothing has been published since, polling again
/// delivers no frame, reports no loss, and leaves the cursors where they are.
pub proof fn law_polling_lanes_again_gives_nothing(lanes: Seq<RingView>, next: Seq<u64>)
    requires
        next.len() == lanes.len(),
    ensures
        ({
            let stop = model::lane_next(lanes, next);
            &&& model::lane_frames(lanes, stop) == Seq::<FrameView>::empty()
            &&& model::lane_loss(lanes, stop) == (RingLoss { overwritten: 0, unavailable: 0 })
            &&& model::lane_next(lanes, stop) == stop
        }),
{
    let stop = model::lane_next(lanes, next);
    assert forall|i: int| 0 <= i < lanes.len() implies {
        let poll = #[trigger] lanes[i].polled(stop[i]);
        &&& poll.frames.len() == 0
        &&& poll.loss == (RingLoss { overwritten: 0, unavailable: 0 })
        &&& poll.to_counter == stop[i]
    } by {
        let lane = lanes[i];
        walk::law_polling_again_gives_nothing(
            lane.kind,
            lane.head() as u64,
            lane.spec.capacity,
            |counter: u64| lane.state_at(counter),
            next[i],
        );
    }
    lemma_quiet_lanes(lanes, stop);
}

/// Empty rings give nothing: polls from the start and from the head deliver no frame
/// and report no loss.
pub proof fn law_fresh_rings_give_nothing(kind: u8, spec: RingSpec, size: u8, next: Seq<u64>)
    requires
        next == Seq::new(
            registry::FamilyView::fresh(kind, spec, size).lanes.len(),
            |i: int| 0u64,
        ),
    ensures
        ({
            let lanes = registry::FamilyView::fresh(kind, spec, size).lanes;
            &&& model::lane_frames(lanes, next) == Seq::<FrameView>::empty()
            &&& model::lane_loss(lanes, next) == (RingLoss { overwritten: 0, unavailable: 0 })
            &&& model::lane_next(lanes, next) == next
            &&& next == Seq::new(lanes.len(), |i: int| lanes[i].head() as u64)
        }),
{
    let lanes = registry::FamilyView::fresh(kind, spec, size).lanes;
    assert forall|i: int| 0 <= i < lanes.len() implies {
        let poll = #[trigger] lanes[i].polled(next[i]);
        &&& poll.frames.len() == 0
        &&& poll.loss == (RingLoss { overwritten: 0, unavailable: 0 })
        &&& poll.to_counter == next[i]
    } by {
        assert(lanes[i].head() == 0);
    }
    lemma_quiet_lanes(lanes, next);
    assert(next =~= Seq::new(lanes.len(), |i: int| lanes[i].head() as u64));
}

/// A poll reaches the head: a subscriber that was up to date stands at the head of
/// every lane again after it polled a publish.
pub proof fn law_polling_reaches_the_head(
    fleet: FleetView,
    kind: u8,
    spec: RingSpec,
    frame_kind: u8,
    ver: u64,
    payload: Seq<u8>,
)
    requires
        fleet.consistent(),
        fleet.has_room(kind, spec, 1),
        payload.len() <= spec.payload_capacity,
        forall|i: int|
            0 <= i < fleet.family(kind, spec).lanes.len() ==> (#[trigger] fleet.family(
                kind,
                spec,
            ).lanes[i]).head() < id::COUNTER_SPAN,
    ensures
        ({
            let before = fleet.family(kind, spec).lanes;
            let lanes = fleet.published(kind, spec, frame_kind, ver, payload).family(
                kind,
                spec,
            ).lanes;
            model::lane_next(
                lanes,
                Seq::new(before.len(), |i: int| before[i].head() as u64),
            ) == Seq::new(lanes.len(), |i: int| lanes[i].head() as u64)
        }),
{
    let after = fleet.published(kind, spec, frame_kind, ver, payload);
    let before = fleet.family(kind, spec).lanes;
    let lanes = after.family(kind, spec).lanes;
    let next = Seq::new(before.len(), |i: int| before[i].head() as u64);
    model::lemma_family_consistent(fleet, kind, spec);
    law_publishing_keeps_the_fleet_consistent(fleet, kind, spec, frame_kind, ver, payload);
    model::lemma_family_consistent(after, kind, spec);
    let heads = Seq::new(lanes.len(), |i: int| lanes[i].head() as u64);
    assert forall|i: int| 0 <= i < lanes.len() implies #[trigger] model::lane_next(lanes, next)[i]
        == heads[i] by {
        assert(before[i].head() < id::COUNTER_SPAN);
        ring::law_poll_delivers_the_retained_log(lanes[i], next[i]);
    }
    assert(model::lane_next(lanes, next) =~= heads);
}

/// A poll goes lane by lane: each lane gives what it still retains of everything
/// written since the cursor, oldest first, and counts what it no longer has; then the
/// cursor stands at its head. Frames of earlier lanes come first, and losses add up.
pub proof fn law_polls_go_lane_by_lane(
    lanes: Seq<RingView>,
    next: Seq<u64>,
    lane: RingView,
    from: u64,
)
    requires
        lanes.len() == next.len(),
        lane.consistent(),
        lane.log.len() <= id::COUNTER_SPAN,
        from <= lane.log.len(),
    ensures
        ({
            let more = lanes.push(lane);
            let cursors = next.push(from);
            let head = lane.log.len() as int;
            let start: int = if head - from > lane.spec.capacity {
                head - lane.spec.capacity
            } else {
                from as int
            };
            let lost = model::lane_loss(lanes, next);
            let total = model::lane_loss(more, cursors);
            &&& model::lane_frames(Seq::<RingView>::empty(), Seq::<u64>::empty())
                == Seq::<FrameView>::empty()
            &&& model::lane_loss(Seq::<RingView>::empty(), Seq::<u64>::empty()) == (RingLoss {
                overwritten: 0,
                unavailable: 0,
            })
            &&& model::lane_frames(more, cursors) == model::lane_frames(lanes, next)
                + lane.log.subrange(start, head)
            &&& total.unavailable == lost.unavailable
            &&& total.overwritten == (if lost.overwritten + (start - from) > u64::MAX {
                u64::MAX as int
            } else {
                lost.overwritten + (start - from)
            })
            &&& model::lane_next(more, cursors) == model::lane_next(lanes, next).push(head as u64)
        }),
{
    let more = lanes.push(lane);
    let cursors = next.push(from);
    assert(more.drop_last() =~= lanes);
    assert(cursors.drop_last() =~= next);
    assert(more.last() == lane);
    assert(cursors.last() == from);
    ring::law_poll_delivers_the_retained_log(lane, from);
    assert(model::lane_next(more, cursors) =~= model::lane_next(lanes, next).push(
        lane.log.len() as u64,
    ));
}

/// A publish stands at the end of its member's lane: the lane of the member itself where
/// each has its own, and the one lane otherwise. The frame carries the identifier of its
/// kind, its member and its position. Every other lane, every other kind, the contest
/// table and the minted counters stay as they were.
pub proof fn law_a_publish_stands_at_the_end_of_its_lane(
    fleet: FleetView,
    kind: u8,
    spec: RingSpec,
    frame_kind: u8,
    ver: u64,
    payload: Seq<u8>,
)
    requires
        fleet.consistent(),
        fleet.compatible(kind, spec),
    ensures
        ({
            let lane: int = if spec.topology == RingTopology::PerNode {
                fleet.node as int
            } else {
                0
            };
            let before = fleet.family(kind, spec).lanes;
            let after = fleet.published(kind, spec, frame_kind, ver, payload);
            let lanes = after.family(kind, spec).lanes;
            &&& lanes.len() == before.len()
            &&& before.len() == (if spec.topology == RingTopology::PerNode {
                fleet.size as int
            } else {
                1
            })
            &&& 0 <= lane < lanes.len()
            &&& lanes[lane].log == before[lane].log.push(
                FrameView {
                    id: NetId64::minted(kind, fleet.node, before[lane].log.len()),
                    kind: frame_kind,
                    ver,
                    payload,
                },
            )
            &&& after.home(kind, spec) == lanes[lane]
            &&& forall|i: int|
                0 <= i < lanes.len() && i != lane ==> #[trigger] lanes[i] == before[i]
            &&& after.rings.remove(kind) == fleet.rings.remove(kind)
            &&& after.family(kind, spec).version == fleet.family(kind, spec).version
            &&& after.contest == fleet.contest
            &&& after.minted == fleet.minted
            &&& after.name == fleet.name
            &&& after.size == fleet.size
            &&& after.node == fleet.node
        }),
{
    model::lemma_family_consistent(fleet, kind, spec);
    let after = fleet.published(kind, spec, frame_kind, ver, payload);
    assert(after.rings.remove(kind) =~= fleet.rings.remove(kind));
}

/// A batch is its frames one behind the other: publishing nothing changes nothing, and
/// one more payload is one more publish of the same class and version.
pub proof fn law_a_batch_is_publish_after_publish(
    fleet: FleetView,
    kind: u8,
    spec: RingSpec,
    frame_kind: u8,
    ver: u64,
    payloads: Seq<Seq<u8>>,
    payload: Seq<u8>,
)
    ensures
        fleet.published_batch(kind, spec, frame_kind, ver, Seq::<Seq<u8>>::empty()) == fleet,
        fleet.published_batch(kind, spec, frame_kind, ver, payloads.push(payload))
            == fleet.published_batch(kind, spec, frame_kind, ver, payloads).published(
            kind,
            spec,
            frame_kind,
            ver,
            payload,
        ),
{
    assert(payloads.push(payload).drop_last() =~= payloads);
}

/// Reads across the fleet are exact: an identifier is found exactly where its kind is in
/// use, its member has a lane there, and that lane still retains the position under that
/// very identifier; then the frame is what was written there.
pub proof fn law_reads_find_what_was_published(fleet: FleetView, id: NetId64)
    requires
        fleet.consistent(),
        fleet.rings.contains_key(id.spec_kind()) ==> forall|i: int|
            0 <= i < fleet.rings[id.spec_kind()].lanes.len() ==> (
            #[trigger] fleet.rings[id.spec_kind()].lanes[i]).log.len() <= id::COUNTER_SPAN,
    ensures
        ({
            let kind = id.spec_kind();
            let counter = id.spec_counter() as int;
            let family = fleet.rings[kind];
            let lane: int = if family.spec.topology == RingTopology::PerNode {
                id.spec_node() as int
            } else {
                0
            };
            let log = family.lanes[lane].log;
            let held = fleet.rings.contains_key(kind) && (family.spec.topology
                == RingTopology::PerNode ==> id.spec_node() < fleet.size) && counter < log.len()
                && log.len() <= counter + family.spec.capacity && log[counter].id == id;
            fleet.found(id) == (if held {
                Some(log[counter])
            } else {
                None
            })
        }),
{
    let kind = id.spec_kind();
    if fleet.rings.contains_key(kind) {
        let family = fleet.rings[kind];
        let lane = registry::lane_of(family.spec.topology, id.spec_node());
        assert(family.consistent(fleet.size));
        if lane < family.lanes.len() {
            assert(family.lanes[lane].log.len() <= id::COUNTER_SPAN);
            ring::law_lookups_are_exact(family.lanes[lane], id);
        }
    }
}

/// Minting counts by kind: the counter of the kind moves on by one, and from the largest
/// number to zero; every other counter, the rings and the contest table stay.
pub proof fn law_minting_counts_by_kind(fleet: FleetView, kind: u8, other: u8)
    requires
        fleet.consistent(),
    ensures
        ({
            let after = fleet.after_mint(kind);
            let counter = fleet.minted[kind as int];
            &&& after.minted.len() == fleet.minted.len()
            &&& after.minted[kind as int] == (if counter == u64::MAX {
                0
            } else {
                counter + 1
            })
            &&& other != kind ==> after.minted[other as int] == fleet.minted[other as int]
            &&& after.rings == fleet.rings
            &&& after.contest == fleet.contest
            &&& after.node == fleet.node
            &&& after.size == fleet.size
            &&& after.name == fleet.name
        }),
{
}

/// When a kind can be used and written to: its layout is sound and the kind is unused or
/// in use with the same layout; and there is room as long as the lane of this member
/// does not run past the last counter.
pub proof fn law_what_makes_room(fleet: FleetView, kind: u8, spec: RingSpec, count: nat)
    ensures
        fleet.compatible(kind, spec) <==> spec.valid() && (!fleet.rings.contains_key(kind)
            || fleet.rings[kind].spec == spec),
        fleet.consistent() && fleet.compatible(kind, spec) ==> (fleet.has_room(kind, spec, count)
            <==> (if fleet.rings.contains_key(kind) {
            fleet.rings[kind].lanes[if spec.topology == RingTopology::PerNode {
                fleet.node as int
            } else {
                0
            }].log.len()
        } else {
            0
        }) + count <= u64::MAX),
{
    if fleet.consistent() && fleet.compatible(kind, spec) {
        model::lemma_family_consistent(fleet, kind, spec);
    }
}

/// A fleet that was just joined is empty: no kind is in use, the contest table has 1024
/// unused slots and no claim yet, and every counter begins at zero.
pub proof fn law_a_new_fleet_is_empty(name: Seq<char>, size: u8, node: u16, kind: u8, i: int)
    ensures
        ({
            let fleet = super::fresh_fleet(name, size, node);
            &&& fleet.name == name && fleet.size == size && fleet.node == node
            &&& !fleet.rings.contains_key(kind)
            &&& fleet.contest.next_claim == 0
            &&& fleet.contest.slots.len() == 1024
            &&& 0 <= i < 1024 ==> fleet.contest.slots[i] is Empty
            &&& fleet.minted.len() == 256
            &&& fleet.minted[kind as int] == 0
        }),
{
}

/// Clearing a kind leaves empty rings: as many lanes as the topology asks for, each
/// without a frame, and a version that begins anew. Every other kind, the contest table
/// and the minted counters stay as they were.
pub proof fn law_clearing_a_kind_spares_all_others(
    fleet: FleetView,
    kind: u8,
    spec: RingSpec,
    other: u8,
    i: int,
)
    ensures
        ({
            let after = fleet.with_family(
                kind,
                registry::FamilyView::fresh(kind, spec, fleet.size),
            );
            let family = after.rings[kind];
            &&& after.rings.contains_key(kind)
            &&& family.kind == kind
            &&& family.spec == spec
            &&& family.version == 0
            &&& family.lanes.len() == (if spec.topology == RingTopology::PerNode {
                fleet.size as int
            } else {
                1
            })
            &&& 0 <= i < family.lanes.len() ==> family.lanes[i].log.len() == 0
                && family.lanes[i].kind == kind && family.lanes[i].spec == spec
            &&& other != kind ==> after.rings.contains_key(other) == fleet.rings.contains_key(other)
            &&& other != kind && fleet.rings.contains_key(other) ==> after.rings[other]
                == fleet.rings[other]
            &&& after.contest == fleet.contest
            &&& after.minted == fleet.minted
            &&& after.node == fleet.node
        }),
{
}

/// A poll of several lanes is the polls of its lanes: one more lane adds its frames at the
/// end, its losses to the sums, which stop at the largest number, and its position to the
/// cursors.
pub proof fn law_lane_polls_add_up(
    lanes: Seq<RingView>,
    next: Seq<u64>,
    lane: RingView,
    from: u64,
)
    requires
        lanes.len() == next.len(),
    ensures
        ({
            let poll = lane.polled(from);
            let lost = model::lane_loss(lanes, next);
            let total = model::lane_loss(lanes.push(lane), next.push(from));
            &&& model::lane_frames(lanes.push(lane), next.push(from)) == model::lane_frames(
                lanes,
                next,
            ) + poll.frames
            &&& total.overwritten == (if lost.overwritten + poll.loss.overwritten <= u64::MAX {
                lost.overwritten + poll.loss.overwritten
            } else {
                u64::MAX as int
            })
            &&& total.unavailable == (if lost.unavailable + poll.loss.unavailable <= u64::MAX {
                lost.unavailable + poll.loss.unavailable
            } else {
                u64::MAX as int
            })
            &&& model::lane_next(lanes.push(lane), next.push(from)) == model::lane_next(
                lanes,
                next,
            ).push(poll.to_counter)
        }),
{
    let more = lanes.push(lane);
    let cursors = next.push(from);
    assert(more.drop_last() =~= lanes);
    assert(cursors.drop_last() =~= next);
    assert(model::lane_next(more, cursors) =~= model::lane_next(lanes, next).push(
        lane.polled(from).to_counter,
    ));
}

} // verus!
