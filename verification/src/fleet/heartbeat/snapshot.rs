use vstd::prelude::*;

use super::record;
use super::record::{
    FleetHeartbeatRecord, FLEET_HEARTBEAT_FRAME_KIND, FLEET_HEARTBEAT_RING_KIND,
};
use super::sample;
use super::sample::{FleetHeartbeat, HeartbeatView};
use crate::buf;
use crate::epoch::OrbitEpoch;
use crate::fleet::model;
use crate::fleet::model::FleetView;
use crate::fleet::Fleet;
use crate::id;
use crate::id::NetId64;
use crate::node::NodeId;
use crate::ring;
use crate::ring::FrameView;

verus! {

/// The heartbeats of a fleet at one moment, and who is missing or late.
#[derive(Clone, Debug, PartialEq, Eq)]
pub struct FleetHeartbeatSnapshot {
    pub now: OrbitEpoch,
    /// Milliseconds after which a heartbeat is stale.
    pub max_age: u128,
    pub latest: Vec<FleetHeartbeat>,
    pub missing_node_ids: Vec<NodeId>,
    pub stale_node_ids: Vec<NodeId>,
}

/// The slot numbers of a list of members.
pub open spec fn node_numbers(nodes: Seq<NodeId>) -> Seq<u16> {
    nodes.map_values(|node: NodeId| node.spec_get())
}

/// The members below `count` that a list of heartbeats does not mention, in slot
/// order.
pub open spec fn missing_nodes(latest: Seq<HeartbeatView>, count: nat) -> Seq<u16>
    decreases count,
{
    if count == 0 {
        seq![]
    } else {
        let node = (count - 1) as u16;
        let before = missing_nodes(latest, (count - 1) as nat);
        if sample::mentions(latest, node) {
            before
        } else {
            before.push(node)
        }
    }
}

/// The members whose heartbeat in the list is older than `max_age_ms` at `now_ms`,
/// in list order.
pub open spec fn stale_nodes(latest: Seq<HeartbeatView>, now_ms: u64, max_age_ms: u128) -> Seq<u16>
    decreases latest.len(),
{
    if latest.len() == 0 {
        seq![]
    } else {
        let before = stale_nodes(latest.drop_last(), now_ms, max_age_ms);
        if now_ms - latest.last().captured_at_ms > max_age_ms {
            before.push(latest.last().node)
        } else {
            before
        }
    }
}

fn is_mentioned(latest: &Vec<FleetHeartbeat>, node: u16) -> (yes: bool)
    ensures
        yes == sample::mentions(sample::heartbeat_views(latest@), node),
{
    let ghost views = sample::heartbeat_views(latest@);
    let mut i: usize = 0;
    while i < latest.len()
        invariant
            i <= latest@.len(),
            views == sample::heartbeat_views(latest@),
            forall|j: int| 0 <= j < i ==> (#[trigger] views[j]).node != node,
        decreases latest@.len() - i,
    {
        if latest[i].node_id.get() == node {
            proof {
                assert(views[i as int].node == node);
            }
            return true;
        }
        i = i + 1;
    }
    false
}

/// Judge the latest heartbeats of a fleet of `size` members at `now`.
pub fn judge(latest: Vec<FleetHeartbeat>, size: u8, now: OrbitEpoch, max_age_ms: u128) -> (snapshot:
    FleetHeartbeatSnapshot)
    ensures
        snapshot.now == now,
        snapshot.max_age == max_age_ms,
        snapshot.latest == latest,
        node_numbers(snapshot.missing_node_ids@) == missing_nodes(
            sample::heartbeat_views(latest@),
            size as nat,
        ),
        node_numbers(snapshot.stale_node_ids@) == stale_nodes(
            sample::heartbeat_views(latest@),
            now.spec_unix_ms(),
            max_age_ms,
        ),
{
    let ghost views = sample::heartbeat_views(latest@);
    let mut missing_node_ids: Vec<NodeId> = Vec::new();
    let mut node: u16 = 0;
    proof {
        assert(node_numbers(missing_node_ids@) =~= seq![]);
    }
    while node < size as u16
        invariant
            node <= size,
            views == sample::heartbeat_views(latest@),
            node_numbers(missing_node_ids@) == missing_nodes(views, node as nat),
        decreases size - node,
    {
        if !is_mentioned(&latest, node) {
            let ghost before = missing_node_ids@;
            missing_node_ids.push(NodeId::new(node));
            proof {
                assert(node_numbers(missing_node_ids@) =~= node_numbers(before).push(node));
            }
        }
        node = node + 1;
    }
    let mut stale_node_ids: Vec<NodeId> = Vec::new();
    let mut i: usize = 0;
    proof {
        assert(node_numbers(stale_node_ids@) =~= seq![]);
        assert(views.take(0) =~= seq![]);
    }
    while i < latest.len()
        invariant
            i <= latest@.len(),
            views == sample::heartbeat_views(latest@),
            node_numbers(stale_node_ids@) == stale_nodes(
                views.take(i as int),
                now.spec_unix_ms(),
                max_age_ms,
            ),
        decreases latest@.len() - i,
    {
        if !latest[i].is_fresh_at(now, max_age_ms) {
            let ghost before = stale_node_ids@;
            stale_node_ids.push(latest[i].node_id);
            proof {
                assert(node_numbers(stale_node_ids@) =~= node_numbers(before).push(
                    views[i as int].node,
                ));
            }
        }
        i = i + 1;
        proof {
            assert(views.take(i as int).drop_last() =~= views.take(i - 1));
            assert(views.take(i as int).last() == views[i - 1]);
        }
    }
    proof {
        assert(views.take(i as int) =~= views);
    }
    FleetHeartbeatSnapshot { now, max_age: max_age_ms, latest, missing_node_ids, stale_node_ids }
}

impl Fleet {
    /// Whether this member can publish a heartbeat: the heartbeat ring has its
    /// layout, and a counter is left.
    pub fn can_heartbeat(&self) -> (yes: bool)
        requires
            self.wf(),
        ensures
            yes == self@.has_room(FLEET_HEARTBEAT_RING_KIND, record::heartbeat_spec(), 1),
    {
        proof {
            record::lemma_heartbeat_record();
        }
        self.has_room::<FleetHeartbeatRecord>(1)
    }

    /// Publish a heartbeat of this member, captured when the wall clock is read.
    pub fn publish_heartbeat(&mut self) -> (sample: FleetHeartbeat)
        requires
            old(self).wf(),
            old(self)@.has_room(FLEET_HEARTBEAT_RING_KIND, record::heartbeat_spec(), 1),
        ensures
            final(self).wf(),
            exists|captured_at: OrbitEpoch|
                sample.captured_at == captured_at && final(self)@ == #[trigger] beaten(
                    old(self)@,
                    captured_at,
                ),
            sample@.id == NetId64::minted(
                FLEET_HEARTBEAT_RING_KIND,
                old(self)@.node,
                old(self)@.home(FLEET_HEARTBEAT_RING_KIND, record::heartbeat_spec()).head(),
            ),
            sample@.node == old(self)@.node,
    {
        let captured_at = OrbitEpoch::now();
        self.publish_heartbeat_at(captured_at)
    }

    /// Publish a heartbeat of this member, captured at the given time.
    pub fn publish_heartbeat_at(&mut self, captured_at: OrbitEpoch) -> (sample: FleetHeartbeat)
        requires
            old(self).wf(),
            old(self)@.has_room(FLEET_HEARTBEAT_RING_KIND, record::heartbeat_spec(), 1),
        ensures
            final(self).wf(),
            final(self)@ == beaten(old(self)@, captured_at),
            sample.captured_at == captured_at,
            sample@ == (HeartbeatView {
                id: NetId64::minted(
                    FLEET_HEARTBEAT_RING_KIND,
                    old(self)@.node,
                    old(self)@.home(FLEET_HEARTBEAT_RING_KIND, record::heartbeat_spec()).head(),
                ),
                node: old(self)@.node,
                captured_at_ms: captured_at.spec_unix_ms(),
            }),
    {
        let nothing: Vec<u8> = Vec::new();
        let payload = buf::bytes_from_slice(nothing.as_slice());
        proof {
            record::lemma_heartbeat_record();
            assert(buf::bytes_contents(payload) =~= seq![]);
        }
        let id = self.publish::<FleetHeartbeatRecord>(
            FLEET_HEARTBEAT_FRAME_KIND,
            captured_at.as_unix_ms(),
            payload,
        );
        FleetHeartbeat { id, node_id: self.node_id(), captured_at }
    }

    /// The newest heartbeat of each member that was heard of recently.
    pub fn latest_heartbeats(&self) -> (latest: Vec<FleetHeartbeat>)
        requires
            self.wf(),
            self@.compatible(FLEET_HEARTBEAT_RING_KIND, record::heartbeat_spec()),
        ensures
            ({
                let ring = self@.home(FLEET_HEARTBEAT_RING_KIND, record::heartbeat_spec());
                sample::is_latest(
                    sample::heartbeat_views(latest@),
                    ring.retained(),
                    ring.floor() as int,
                    self@.size,
                )
            }),
    {
        proof {
            record::lemma_heartbeat_record();
            self.lemma_consistent();
            model::lemma_family_consistent(
                self@,
                FLEET_HEARTBEAT_RING_KIND,
                record::heartbeat_spec(),
            );
        }
        match self.lane::<FleetHeartbeatRecord>() {
            Some(lane) => {
                proof {
                    ring::lemma_window_of_ring(lane);
                }
                sample::collect_latest(lane, self.fleet_size())
            },
            None => Vec::new(),
        }
    }

    /// Judge the fleet's heartbeats, at the time the wall clock shows.
    pub fn heartbeat_snapshot(&self, max_age_ms: u128) -> (snapshot: FleetHeartbeatSnapshot)
        requires
            self.wf(),
            self@.compatible(FLEET_HEARTBEAT_RING_KIND, record::heartbeat_spec()),
        ensures
            snapshot_shows(snapshot, self@, snapshot.now, max_age_ms),
    {
        let now = OrbitEpoch::now();
        self.heartbeat_snapshot_at(now, max_age_ms)
    }

    /// Judge the fleet's heartbeats at the given time.
    pub fn heartbeat_snapshot_at(&self, now: OrbitEpoch, max_age_ms: u128) -> (snapshot:
        FleetHeartbeatSnapshot)
        requires
            self.wf(),
            self@.compatible(FLEET_HEARTBEAT_RING_KIND, record::heartbeat_spec()),
        ensures
            snapshot_shows(snapshot, self@, now, max_age_ms),
    {
        let latest = self.latest_heartbeats();
        judge(latest, self.fleet_size(), now, max_age_ms)
    }
}

/// Whether a snapshot shows the heartbeats of a fleet as they stand at `now`.
pub open spec fn snapshot_shows(
    snapshot: FleetHeartbeatSnapshot,
    fleet: FleetView,
    now: OrbitEpoch,
    max_age_ms: u128,
) -> bool {
    let ring = fleet.home(FLEET_HEARTBEAT_RING_KIND, record::heartbeat_spec());
    let latest = sample::heartbeat_views(snapshot.latest@);
    &&& snapshot.now == now
    &&& snapshot.max_age == max_age_ms
    &&& sample::is_latest(latest, ring.retained(), ring.floor() as int, fleet.size)
    &&& node_numbers(snapshot.missing_node_ids@) == missing_nodes(latest, fleet.size as nat)
    &&& node_numbers(snapshot.stale_node_ids@) == stale_nodes(
        latest,
        now.spec_unix_ms(),
        max_age_ms,
    )
}

/// The fleet after this member published a heartbeat.
pub open spec fn beaten(fleet: FleetView, captured_at: OrbitEpoch) -> FleetView {
    fleet.published(
        FLEET_HEARTBEAT_RING_KIND,
        record::heartbeat_spec(),
        FLEET_HEARTBEAT_FRAME_KIND,
        captured_at.spec_unix_ms(),
        seq![],
    )
}

/// The missing members are exactly those below the count that are not mentioned.
pub proof fn law_missing_members_are_those_unheard_of(
    latest: Seq<HeartbeatView>,
    count: nat,
    node: u16,
)
    requires
        count <= 256,
    ensures
        missing_nodes(latest, count).contains(node) <==> node < count && !sample::mentions(
            latest,
            node,
        ),
        missing_nodes(latest, count).contains(node) <==> node < count && forall|i: int|
            0 <= i < latest.len() ==> (#[trigger] latest[i]).node != node,
    decreases count,
{
    if count > 0 {
        let last = (count - 1) as u16;
        let before = missing_nodes(latest, (count - 1) as nat);
        law_missing_members_are_those_unheard_of(latest, (count - 1) as nat, node);
        if !sample::mentions(latest, last) {
            let after = before.push(last);
            if node == last {
                assert(after[before.len() as int] == last);
            }
            if before.contains(node) {
                let i = choose|i: int| 0 <= i < before.len() && before[i] == node;
                assert(after[i] == node);
            }
            if after.contains(node) && node != last {
                let i = choose|i: int| 0 <= i < after.len() && after[i] == node;
                assert(before[i] == node);
            }
        }
    } else {
        assert(!missing_nodes(latest, 0).contains(node));
    }
}

/// Where all members of the window belong to the fleet, every member that was
/// heard of is listed: none is dropped for want of room.
pub proof fn law_every_member_heard_of_is_listed(
    latest: Seq<HeartbeatView>,
    window: Seq<Option<FrameView>>,
    floor: int,
    size: u8,
    node: u16,
)
    requires
        sample::is_latest(latest, window, floor, size),
        forall|i: int| 0 <= i < latest.len() ==> (#[trigger] latest[i]).node < size,
        node < size,
        sample::newest(window, floor, node) is Some,
    ensures
        sample::mentions(latest, node),
{
    if !sample::mentions(latest, node) {
        lemma_sorted_fill(latest, size as int, node as int);
        assert(latest[node as int].node == node);
    }
}

/// In a strictly increasing list of `size` numbers below `size`, each number
/// stands at its own index.
proof fn lemma_sorted_fill(latest: Seq<HeartbeatView>, size: int, at: int)
    requires
        latest.len() == size,
        forall|i: int, j: int|
            0 <= i < j < latest.len() ==> (#[trigger] latest[i]).node < (#[trigger] latest[j]).node,
        forall|i: int| 0 <= i < latest.len() ==> (#[trigger] latest[i]).node < size,
        0 <= at < size,
    ensures
        latest[at].node == at,
{
    lemma_sorted_low(latest, at);
    lemma_sorted_high(latest, size, at);
}

proof fn lemma_sorted_low(latest: Seq<HeartbeatView>, at: int)
    requires
        forall|i: int, j: int|
            0 <= i < j < latest.len() ==> (#[trigger] latest[i]).node < (#[trigger] latest[j]).node,
        0 <= at < latest.len(),
    ensures
        latest[at].node >= at,
    decreases at,
{
    if at > 0 {
        lemma_sorted_low(latest, at - 1);
        assert(latest[at - 1].node < latest[at].node);
    }
}

proof fn lemma_sorted_high(latest: Seq<HeartbeatView>, size: int, at: int)
    requires
        latest.len() == size,
        forall|i: int, j: int|
            0 <= i < j < latest.len() ==> (#[trigger] latest[i]).node < (#[trigger] latest[j]).node,
        forall|i: int| 0 <= i < latest.len() ==> (#[trigger] latest[i]).node < size,
        0 <= at < size,
    ensures
        latest[at].node <= at,
    decreases size - at,
{
    if at < size - 1 {
        lemma_sorted_high(latest, size, at + 1);
        assert(latest[at].node < latest[at + 1].node);
    }
}

/// The stale members are exactly those whose listed heartbeat is older than allowed: a
/// member is listed as stale where its sample was captured more than the allowed
/// milliseconds ago, and nowhere else. In a list in slot order they come in slot order,
/// each once.
pub proof fn law_stale_members_are_those_gone_quiet(
    latest: Seq<HeartbeatView>,
    now_ms: u64,
    max_age_ms: u128,
    node: u16,
)
    ensures
        stale_nodes(latest, now_ms, max_age_ms).contains(node) <==> exists|i: int|
            0 <= i < latest.len() && (#[trigger] latest[i]).node == node && now_ms
                - latest[i].captured_at_ms > max_age_ms,
        (forall|i: int, j: int|
            0 <= i < j < latest.len() ==> (#[trigger] latest[i]).node < (#[trigger] latest[j]).node)
            ==> (forall|i: int, j: int|
            0 <= i < j < stale_nodes(latest, now_ms, max_age_ms).len() ==> (
            #[trigger] stale_nodes(latest, now_ms, max_age_ms)[i]) < (#[trigger] stale_nodes(
                latest,
                now_ms,
                max_age_ms,
            )[j])),
    decreases latest.len(),
{
    let stale = stale_nodes(latest, now_ms, max_age_ms);
    if latest.len() > 0 {
        let front = latest.drop_last();
        let last = latest.len() - 1;
        let before = stale_nodes(front, now_ms, max_age_ms);
        law_stale_members_are_those_gone_quiet(front, now_ms, max_age_ms, node);
        assert(latest.last() == latest[last]);
        if stale.contains(node) {
            let k = choose|k: int| 0 <= k < stale.len() && stale[k] == node;
            if k < before.len() {
                assert(before[k] == node);
                let i = choose|i: int|
                    0 <= i < front.len() && (#[trigger] front[i]).node == node && now_ms
                        - front[i].captured_at_ms > max_age_ms;
                assert(latest[i] == front[i]);
            } else {
                assert(latest[last].node == node);
            }
        }
        if exists|i: int|
            0 <= i < latest.len() && (#[trigger] latest[i]).node == node && now_ms
                - latest[i].captured_at_ms > max_age_ms {
            let i = choose|i: int|
                0 <= i < latest.len() && (#[trigger] latest[i]).node == node && now_ms
                    - latest[i].captured_at_ms > max_age_ms;
            if i < last {
                assert(front[i] == latest[i]);
                let k = choose|k: int| 0 <= k < before.len() && before[k] == node;
                assert(stale[k] == node);
            } else {
                assert(stale[before.len() as int] == node);
            }
        }
        if forall|i: int, j: int|
            0 <= i < j < latest.len() ==> (#[trigger] latest[i]).node < (
            #[trigger] latest[j]).node {
            assert forall|i: int, j: int| 0 <= i < j < front.len() implies (
            #[trigger] front[i]).node < (#[trigger] front[j]).node by {
                assert(latest[i].node < latest[j].node);
            }
            assert forall|i: int, j: int| 0 <= i < j < stale.len() implies (#[trigger] stale[i])
                < (#[trigger] stale[j]) by {
                if j < before.len() {
                    assert(before[i] < before[j]);
                } else {
                    assert(before[i] == stale[i]);
                    law_stale_members_are_those_gone_quiet(front, now_ms, max_age_ms, before[i]);
                    assert(before.contains(before[i]));
                    let k = choose|k: int|
                        0 <= k < front.len() && (#[trigger] front[k]).node == before[i] && now_ms
                            - front[k].captured_at_ms > max_age_ms;
                    assert(latest[k].node < latest[last].node);
                }
            }
        }
    } else {
        assert(!stale.contains(node));
    }
}

/// The missing members come in slot order, each once.
pub proof fn law_missing_members_come_in_order(latest: Seq<HeartbeatView>, count: nat)
    requires
        count <= 256,
    ensures
        forall|i: int, j: int|
            0 <= i < j < missing_nodes(latest, count).len() ==> (#[trigger] missing_nodes(
                latest,
                count,
            )[i]) < (#[trigger] missing_nodes(latest, count)[j]),
    decreases count,
{
    if count > 0 {
        let before = missing_nodes(latest, (count - 1) as nat);
        let missing = missing_nodes(latest, count);
        law_missing_members_come_in_order(latest, (count - 1) as nat);
        assert forall|i: int, j: int| 0 <= i < j < missing.len() implies (#[trigger] missing[i]) < (
        #[trigger] missing[j]) by {
            if j < before.len() {
                assert(before[i] < before[j]);
            } else {
                assert(before[i] == missing[i]);
                assert(before.contains(before[i]));
                law_missing_members_are_those_unheard_of(latest, (count - 1) as nat, before[i]);
            }
        }
    }
}

/// A heartbeat is seen: right after a member published one, a snapshot lists the member
/// with that heartbeat and not as missing, and calls it stale exactly where the time that
/// it carries lies further back than allowed.
pub proof fn law_a_heartbeat_is_seen(
    fleet: FleetView,
    captured_at: OrbitEpoch,
    snapshot: FleetHeartbeatSnapshot,
    now: OrbitEpoch,
    max_age_ms: u128,
)
    requires
        fleet.consistent(),
        fleet.has_room(FLEET_HEARTBEAT_RING_KIND, record::heartbeat_spec(), 1),
        fleet.home(FLEET_HEARTBEAT_RING_KIND, record::heartbeat_spec()).head() < id::COUNTER_SPAN,
        snapshot_shows(snapshot, beaten(fleet, captured_at), now, max_age_ms),
    ensures
        ({
            let head = fleet.home(FLEET_HEARTBEAT_RING_KIND, record::heartbeat_spec()).head();
            let latest = sample::heartbeat_views(snapshot.latest@);
            &&& latest.contains(
                HeartbeatView {
                    id: NetId64::minted(221, fleet.node, head),
                    node: fleet.node,
                    captured_at_ms: captured_at.spec_unix_ms(),
                },
            )
            &&& !node_numbers(snapshot.missing_node_ids@).contains(fleet.node)
            &&& node_numbers(snapshot.stale_node_ids@).contains(fleet.node) <==> now.spec_unix_ms()
                - captured_at.spec_unix_ms() > max_age_ms
        }),
{
    let kind = FLEET_HEARTBEAT_RING_KIND;
    let spec = record::heartbeat_spec();
    let ring = fleet.home(kind, spec);
    let after = beaten(fleet, captured_at);
    let grown = after.home(kind, spec);
    let window = grown.retained();
    let floor = grown.floor() as int;
    let last = window.len() - 1;
    let latest = sample::heartbeat_views(snapshot.latest@);
    let written = HeartbeatView {
        id: NetId64::minted(kind, fleet.node, ring.head()),
        node: fleet.node,
        captured_at_ms: captured_at.spec_unix_ms(),
    };
    record::lemma_heartbeat_record();
    model::lemma_family_consistent(fleet, kind, spec);
    crate::fleet::laws::law_publishing_keeps_the_fleet_consistent(
        fleet,
        kind,
        spec,
        FLEET_HEARTBEAT_FRAME_KIND,
        captured_at.spec_unix_ms(),
        seq![],
    );
    model::lemma_family_consistent(after, kind, spec);
    id::lemma_minted_fields(kind, fleet.node, ring.head());
    vstd::arithmetic::div_mod::lemma_small_mod(ring.head(), id::COUNTER_SPAN as nat);
    assert(grown.log.last() == fleet.next_frame(
        kind,
        spec,
        FLEET_HEARTBEAT_FRAME_KIND,
        captured_at.spec_unix_ms(),
        seq![],
    ));
    assert(window[last] == Some(grown.log[floor + last]));
    assert(sample::beats_at(window, floor, fleet.node, last));
    sample::law_the_newest_heartbeat_is_the_last_one(window, floor, fleet.node, last);
    assert(sample::newest(window, floor, fleet.node) == Some(written));
    if !sample::mentions(latest, fleet.node) {
        assert(latest[0].id.spec_counter() > written.id.spec_counter());
        sample::lemma_newest_in_window(window, floor, latest[0].node);
        assert(false);
    }
    let i = choose|i: int| 0 <= i < latest.len() && (#[trigger] latest[i]).node == fleet.node;
    assert(sample::newest(window, floor, latest[i].node) == Some(latest[i]));
    assert(latest[i] == written);
    law_missing_members_are_those_unheard_of(latest, fleet.size as nat, fleet.node);
    law_stale_members_are_those_gone_quiet(
        latest,
        now.spec_unix_ms(),
        max_age_ms,
        fleet.node,
    );
    assert forall|j: int| 0 <= j < latest.len() && (#[trigger] latest[j]).node == fleet.node implies
        latest[j] == written by {
        assert(sample::newest(window, floor, latest[j].node) == Some(latest[j]));
    }
}

/// The list of latest heartbeats is exact: it is in slot order with at most one entry a
/// member and no more than the fleet has members; each entry is the last heartbeat of its
/// member; and a member whose last heartbeat is not listed was heard of before every
/// member of a full list.
pub proof fn law_the_latest_list_is_exact(
    latest: Seq<HeartbeatView>,
    window: Seq<Option<FrameView>>,
    floor: int,
    size: u8,
    node: u16,
    at: int,
)
    requires
        sample::is_latest(latest, window, floor, size),
        0 <= at < window.len(),
        sample::beats_at(window, floor, node, at),
        forall|i: int|
            at < i < window.len() ==> !#[trigger] sample::beats_at(window, floor, node, i),
    ensures
        latest.len() <= size,
        forall|i: int, j: int|
            0 <= i < j < latest.len() ==> (#[trigger] latest[i]).node < (#[trigger] latest[j]).node,
        forall|i: int|
            0 <= i < latest.len() && (#[trigger] latest[i]).node == node ==> latest[i].id
                == window[at]->Some_0.id && latest[i].captured_at_ms == window[at]->Some_0.ver,
        (exists|i: int| 0 <= i < latest.len() && (#[trigger] latest[i]).node == node) || (
        latest.len() == size && forall|i: int|
            0 <= i < latest.len() ==> (#[trigger] latest[i]).id.spec_counter()
                > window[at]->Some_0.id.spec_counter()),
{
    sample::law_the_newest_heartbeat_is_the_last_one(window, floor, node, at);
    assert forall|i: int| 0 <= i < latest.len() && (#[trigger] latest[i]).node == node implies
        latest[i].id == window[at]->Some_0.id && latest[i].captured_at_ms
        == window[at]->Some_0.ver by {
        assert(sample::newest(window, floor, latest[i].node) == Some(latest[i]));
    }
}

/// A snapshot sorts the members: those below the size of the fleet without a listed
/// heartbeat are missing, and those whose listed heartbeat was captured more than the
/// allowed milliseconds ago are stale, each list in slot order. It shows the moment and
/// the age that it was taken for.
pub proof fn law_a_snapshot_sorts_the_members(
    snapshot: FleetHeartbeatSnapshot,
    fleet: FleetView,
    now: OrbitEpoch,
    max_age_ms: u128,
    node: u16,
)
    requires
        snapshot_shows(snapshot, fleet, now, max_age_ms),
    ensures
        ({
            let latest = sample::heartbeat_views(snapshot.latest@);
            let missing = node_numbers(snapshot.missing_node_ids@);
            let stale = node_numbers(snapshot.stale_node_ids@);
            &&& snapshot.now == now
            &&& snapshot.max_age == max_age_ms
            &&& missing.contains(node) <==> node < fleet.size && forall|i: int|
                0 <= i < latest.len() ==> (#[trigger] latest[i]).node != node
            &&& stale.contains(node) <==> exists|i: int|
                0 <= i < latest.len() && (#[trigger] latest[i]).node == node && now.spec_unix_ms()
                    - latest[i].captured_at_ms > max_age_ms
            &&& forall|i: int, j: int|
                0 <= i < j < missing.len() ==> (#[trigger] missing[i]) < (#[trigger] missing[j])
            &&& forall|i: int, j: int|
                0 <= i < j < stale.len() ==> (#[trigger] stale[i]) < (#[trigger] stale[j])
        }),
{
    let latest = sample::heartbeat_views(snapshot.latest@);
    law_missing_members_are_those_unheard_of(latest, fleet.size as nat, node);
    law_missing_members_come_in_order(latest, fleet.size as nat);
    law_stale_members_are_those_gone_quiet(latest, now.spec_unix_ms(), max_age_ms, node);
}

/// Stale is the opposite of fresh: of a snapshot whose list is in slot order, a listed
/// member is stale exactly where its own sample is no longer fresh at that moment.
pub proof fn law_stale_members_are_not_fresh(
    snapshot: FleetHeartbeatSnapshot,
    fleet: FleetView,
    now: OrbitEpoch,
    max_age_ms: u128,
    i: int,
)
    requires
        snapshot_shows(snapshot, fleet, now, max_age_ms),
        0 <= i < snapshot.latest@.len(),
    ensures
        node_numbers(snapshot.stale_node_ids@).contains(snapshot.latest@[i].node_id.spec_get())
            <==> !snapshot.latest@[i].captured_at.spec_is_fresh_at(now, max_age_ms),
{
    let latest = sample::heartbeat_views(snapshot.latest@);
    let node = latest[i].node;
    law_a_snapshot_sorts_the_members(snapshot, fleet, now, max_age_ms, node);
    assert forall|j: int| 0 <= j < latest.len() && (#[trigger] latest[j]).node == node implies j
        == i by {
        if j < i {
            assert(latest[j].node < latest[i].node);
        }
        if i < j {
            assert(latest[i].node < latest[j].node);
        }
    }
}

/// A list of members is shown number by number, in the same order.
pub proof fn law_members_are_shown_in_place(nodes: Seq<NodeId>, i: int)
    ensures
        node_numbers(nodes).len() == nodes.len(),
        0 <= i < nodes.len() ==> node_numbers(nodes)[i] == nodes[i].spec_get(),
{
}

} // verus!
