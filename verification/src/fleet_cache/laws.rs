//! What holds of every cache domain.

use vstd::prelude::*;

use super::chunks;
use super::coherence;
use super::coherence::Observed;
use super::layout;
use super::layout::{CacheLayout, DefaultCacheLayout};
use super::local;
use super::local::{LocalView, OutcomeView, ReadView};
use super::protocol;
use super::protocol::{CacheMutation, CacheRevision, MutationView, PayloadRef};
use super::transport;
use super::{CachePoll, CacheView};
use crate::buf;
use crate::fleet;
use crate::fleet::laws as fleet_laws;
use crate::fleet::model;
use crate::fleet::model::FleetView;
use crate::id;
use crate::id::NetId64;
use crate::ring;
use crate::ring::cursor::RingLoss;
use crate::ring::registry;
use crate::ring::{FrameView, RingSpec, RingView};

verus! {

/// Taking a version keeps a fleet consistent.
proof fn lemma_version_taken(fleet: FleetView, kind: u8, spec: RingSpec)
    requires
        fleet.consistent(),
        fleet.compatible(kind, spec),
    ensures
        transport::version_taken(fleet, kind, spec).consistent(),
        transport::version_taken(fleet, kind, spec).compatible(kind, spec),
        transport::version_taken(fleet, kind, spec).home(kind, spec) == fleet.home(kind, spec),
        transport::version_taken(fleet, kind, spec).family(kind, spec).lanes == fleet.family(
            kind,
            spec,
        ).lanes,
{
    let versioned = transport::version_taken(fleet, kind, spec);
    model::lemma_family_consistent(fleet, kind, spec);
    assert forall|other: u8| #[trigger] versioned.rings.contains_key(other) implies
        versioned.rings[other].kind == other && versioned.rings[other].consistent(
        versioned.size,
    ) by {
        if other != kind {
            assert(fleet.rings.contains_key(other));
        }
    }
}

/// What publishing a value does to the payload ring: the lane of the writer grows
/// by the chunks, which carry the version just allocated.
proof fn lemma_value_published<L: CacheLayout>(fleet: FleetView, value: Seq<u8>)
    requires
        fleet.consistent(),
        transport::layout_sound::<L>(),
        transport::fleet_compatible::<L>(fleet),
        fleet.family(L::PAYLOAD_RING_KIND, layout::payload_spec::<L>()).version < u64::MAX,
    ensures
        ({
            let kind = L::PAYLOAD_RING_KIND;
            let spec = layout::payload_spec::<L>();
            let after = transport::value_published::<L>(fleet, value);
            let ver = (fleet.family(kind, spec).version + 1) as u64;
            &&& after.node == fleet.node
            &&& after.size == fleet.size
            &&& after.rings.contains_key(kind)
            &&& after.rings[kind].spec == spec
            &&& after.rings[kind].kind == kind
            &&& after.rings[kind].version == ver
            &&& after.rings[kind].lanes == fleet.family(kind, spec).lanes.update(
                registry::lane_of(spec.topology, fleet.node),
                after.home(kind, spec),
            )
            &&& after.home(kind, spec).kind == kind
            &&& after.home(kind, spec).spec == spec
            &&& after.home(kind, spec).log == fleet.home(kind, spec).log + model::batch_frames(
                fleet.home(kind, spec),
                fleet.node,
                transport::CHUNK_FRAME_KIND,
                ver,
                chunks::chunk_list(value, L::PAYLOAD_RING_PAYLOAD as nat),
            )
        }),
{
    let kind = L::PAYLOAD_RING_KIND;
    let spec = layout::payload_spec::<L>();
    let versioned = transport::version_taken(fleet, kind, spec);
    let ver = (fleet.family(kind, spec).version + 1) as u64;
    let list = chunks::chunk_list(value, L::PAYLOAD_RING_PAYLOAD as nat);
    lemma_version_taken(fleet, kind, spec);
    chunks::lemma_chunk_sizes(value, L::PAYLOAD_RING_PAYLOAD as nat);
    model::lemma_published_batch(versioned, kind, spec, transport::CHUNK_FRAME_KIND, ver, list);
    let after = transport::value_published::<L>(fleet, value);
    assert(after.rings.contains_key(kind));
    assert(after.family(kind, spec) == after.rings[kind]);
}

/// Publishing a mutation leaves the payload ring as it was.
proof fn lemma_mutation_leaves_payloads<L: CacheLayout>(fleet: FleetView, op: u8, data: Seq<u8>)
    requires
        L::MUTATION_RING_KIND != L::PAYLOAD_RING_KIND,
    ensures
        ({
            let after = transport::mutation_published::<L>(fleet, op, data);
            let kind = L::PAYLOAD_RING_KIND;
            &&& after.rings.contains_key(kind) == fleet.rings.contains_key(kind)
            &&& after.rings[kind] == fleet.rings[kind]
        }),
{
}

/// Two fleets with the same payload ring gather the same chunks.
proof fn lemma_gathered_from_ring(a: FleetView, b: FleetView, payload: PayloadRef, count: nat)
    requires
        a.rings.contains_key(payload.first_id.spec_kind()) == b.rings.contains_key(
            payload.first_id.spec_kind(),
        ),
        a.rings[payload.first_id.spec_kind()] == b.rings[payload.first_id.spec_kind()],
    ensures
        transport::gathered(a, payload, count) == transport::gathered(b, payload, count),
    decreases count,
{
    if count > 0 {
        lemma_gathered_from_ring(a, b, payload, (count - 1) as nat);
        let first = payload.first_id;
        id::lemma_minted_fields(
            first.spec_kind(),
            first.spec_node(),
            (first.spec_counter() + count - 1) as nat,
        );
    }
}

/// Identifiers do not depend on how often the counter field has wrapped.
proof fn lemma_minted_wraps(kind: u8, node: u16, start: nat, i: nat)
    ensures
        NetId64::minted(
            kind,
            node,
            (NetId64::minted(kind, node, start).spec_counter() + i) as nat,
        ) == NetId64::minted(kind, node, start + i),
{
    id::lemma_minted_fields(kind, node, start);
    id::lemma_minted_fields(kind, node, start + i);
    id::lemma_minted_fields(kind, node, (start % (id::COUNTER_SPAN as nat) + i) as nat);
    id::lemma_fields_determine(
        NetId64::minted(kind, node, (start % (id::COUNTER_SPAN as nat) + i) as nat),
        NetId64::minted(kind, node, start + i),
    );
}

/// A lane finds each of the last `capacity` frames under its identifier.
proof fn lemma_lane_finds(lane: RingView, node: u16, at: nat)
    requires
        lane.spec.valid(),
        lane.spec.capacity <= id::COUNTER_SPAN,
        at < lane.log.len() <= at + lane.spec.capacity,
        lane.log[at as int].id == NetId64::minted(lane.kind, node, at),
    ensures
        lane.lookup(NetId64::minted(lane.kind, node, at)) == Some(lane.log[at as int]),
{
    let capacity = lane.spec.capacity as nat;
    id::lemma_minted_fields(lane.kind, node, at);
    ring::lemma_counter_keeps_slot(at, capacity);
    ring::lemma_same_slot(lane.log, capacity, at % (id::COUNTER_SPAN as nat), at);
    ring::lemma_newest_of_retained(lane.log, capacity, at);
}

/// The chunks of a value just published are gathered in order.
proof fn lemma_gathered_after_publish<L: CacheLayout>(fleet: FleetView, value: Seq<u8>, count: nat)
    requires
        fleet.consistent(),
        transport::layout_sound::<L>(),
        transport::fleet_compatible::<L>(fleet),
        fleet.family(L::PAYLOAD_RING_KIND, layout::payload_spec::<L>()).version < u64::MAX,
        value.len() <= transport::max_value::<L>(),
        count <= chunks::chunk_list(value, L::PAYLOAD_RING_PAYLOAD as nat).len(),
    ensures
        transport::gathered(
            transport::value_published::<L>(fleet, value),
            transport::next_reference::<L>(fleet, value),
            count,
        ) == Some(
            chunks::joined(
                chunks::chunk_list(value, L::PAYLOAD_RING_PAYLOAD as nat).take(count as int),
            ),
        ),
    decreases count,
{
    let kind = L::PAYLOAD_RING_KIND;
    let spec = layout::payload_spec::<L>();
    let slot = L::PAYLOAD_RING_PAYLOAD as nat;
    let list = chunks::chunk_list(value, slot);
    let after = transport::value_published::<L>(fleet, value);
    let payload = transport::next_reference::<L>(fleet, value);
    if count == 0 {
        assert(list.take(0) =~= seq![]);
    } else {
        lemma_gathered_after_publish::<L>(fleet, value, (count - 1) as nat);
        lemma_value_published::<L>(fleet, value);
        chunks::lemma_chunk_count(value, slot, L::PAYLOAD_RING_CAPACITY as nat);
        model::lemma_family_consistent(fleet, kind, spec);
        let i = (count - 1) as nat;
        let head = fleet.home(kind, spec).head();
        let lane = after.home(kind, spec);
        let at = head + i;
        id::lemma_minted_fields(kind, fleet.node, head);
        id::lemma_minted_fields(kind, fleet.node, at);
        lemma_minted_wraps(kind, fleet.node, head, i);
        let frames = model::batch_frames(
            fleet.home(kind, spec),
            fleet.node,
            transport::CHUNK_FRAME_KIND,
            payload.payload_version,
            list,
        );
        assert(lane.log[at as int] == frames[i as int]);
        lemma_lane_finds(lane, fleet.node, at);
        assert(after.rings[kind].lanes[registry::lane_of(spec.topology, fleet.node)] == lane);
        assert(transport::chunk_at(after, payload, i as int) == Some(list[i as int]));
        assert(list.take(count as int).drop_last() =~= list.take(i as int));
        assert(list.take(count as int).last() == list[i as int]);
    }
}

/// A put is read back: right after it, the reference in its mutation stands for
/// exactly the value that was put.
pub proof fn law_a_put_is_read_back<L: CacheLayout>(
    fleet: FleetView,
    key: Seq<u8>,
    value: Seq<u8>,
    expires_at_ms: Option<u64>,
)
    requires
        fleet.consistent(),
        transport::layout_sound::<L>(),
        transport::fleet_ready::<L>(fleet),
        transport::put_refusal::<L>(key, value) is None,
    ensures
        transport::payload_of::<L>(
            transport::after_put::<L>(fleet, key, value, expires_at_ms),
            transport::next_reference::<L>(fleet, value),
        ) == Some(value),
{
    let slot = L::PAYLOAD_RING_PAYLOAD as nat;
    let list = chunks::chunk_list(value, slot);
    let payload = transport::next_reference::<L>(fleet, value);
    let published = transport::value_published::<L>(fleet, value);
    let after = transport::after_put::<L>(fleet, key, value, expires_at_ms);
    chunks::lemma_chunk_sizes(value, slot);
    chunks::lemma_chunk_count(value, slot, L::PAYLOAD_RING_CAPACITY as nat);
    lemma_gathered_after_publish::<L>(fleet, value, list.len());
    assert(list.take(list.len() as int) =~= list);
    chunks::law_chunks_join_to_their_value(value, slot);
    id::lemma_minted_fields(
        L::PAYLOAD_RING_KIND,
        fleet.node,
        fleet.home(L::PAYLOAD_RING_KIND, layout::payload_spec::<L>()).head(),
    );
    lemma_mutation_leaves_payloads::<L>(
        published,
        protocol::OP_PUT,
        protocol::put_bytes(key, payload, expires_at_ms),
    );
    lemma_gathered_from_ring(after, published, payload, payload.chunk_count as nat);
}

/// Appending frames of a later version to a lane takes frames of an earlier
/// version away, and never puts others in their place.
proof fn lemma_newer_frames_only_hide(
    log: Seq<FrameView>,
    more: Seq<FrameView>,
    capacity: nat,
    counter: nat,
    ver: u64,
)
    requires
        forall|i: int| 0 <= i < more.len() ==> (#[trigger] more[i]).ver > ver,
    ensures
        ring::newest_in_slot(log + more, capacity, counter) == ring::newest_in_slot(
            log,
            capacity,
            counter,
        ) || (ring::newest_in_slot(log + more, capacity, counter) matches Some(frame) && frame.ver
            > ver),
    decreases more.len(),
{
    if more.len() == 0 {
        assert(log + more =~= log);
    } else {
        let front = more.drop_last();
        assert((log + more).drop_last() =~= log + front);
        assert((log + more).last() == more[more.len() - 1]);
        lemma_newer_frames_only_hide(log, front, capacity, counter, ver);
    }
}

/// Publishing another value leaves each chunk of an older value in place or takes
/// it away.
proof fn lemma_chunk_kept_or_gone<L: CacheLayout>(
    fleet: FleetView,
    other: Seq<u8>,
    payload: PayloadRef,
    i: int,
)
    requires
        fleet.consistent(),
        transport::layout_sound::<L>(),
        transport::fleet_compatible::<L>(fleet),
        fleet.family(L::PAYLOAD_RING_KIND, layout::payload_spec::<L>()).version < u64::MAX,
        payload.first_id.spec_kind() == L::PAYLOAD_RING_KIND,
        payload.payload_version <= fleet.family(
            L::PAYLOAD_RING_KIND,
            layout::payload_spec::<L>(),
        ).version,
        i >= 0,
    ensures
        ({
            let after = transport::value_published::<L>(fleet, other);
            transport::chunk_at(after, payload, i) is None || transport::chunk_at(
                after,
                payload,
                i,
            ) == transport::chunk_at(fleet, payload, i)
        }),
{
    let kind = L::PAYLOAD_RING_KIND;
    let spec = layout::payload_spec::<L>();
    let after = transport::value_published::<L>(fleet, other);
    let first = payload.first_id;
    let counter = (first.spec_counter() + i) as nat;
    let id = NetId64::minted(kind, first.spec_node(), counter);
    let lane = registry::lane_of(spec.topology, first.spec_node());
    lemma_value_published::<L>(fleet, other);
    model::lemma_family_consistent(fleet, kind, spec);
    id::lemma_minted_fields(kind, first.spec_node(), counter);
    if lane == registry::lane_of(spec.topology, fleet.node) {
        let ver = (fleet.family(kind, spec).version + 1) as u64;
        lemma_newer_frames_only_hide(
            fleet.home(kind, spec).log,
            model::batch_frames(
                fleet.home(kind, spec),
                fleet.node,
                transport::CHUNK_FRAME_KIND,
                ver,
                chunks::chunk_list(other, L::PAYLOAD_RING_PAYLOAD as nat),
            ),
            spec.capacity as nat,
            id.spec_counter() as nat,
            payload.payload_version,
        );
        assert(after.rings[kind].lanes[lane] == after.home(kind, spec));
        if !fleet.rings.contains_key(kind) {
            assert(fleet.home(kind, spec).log.len() == 0);
        }
    } else if lane < fleet.family(kind, spec).lanes.len() {
        assert(after.rings[kind].lanes[lane] == fleet.family(kind, spec).lanes[lane]);
        if !fleet.rings.contains_key(kind) {
            assert(after.rings[kind].lanes[lane].log.len() == 0);
        }
    }
}

proof fn lemma_gathered_kept_or_gone<L: CacheLayout>(
    fleet: FleetView,
    other: Seq<u8>,
    payload: PayloadRef,
    count: nat,
)
    requires
        fleet.consistent(),
        transport::layout_sound::<L>(),
        transport::fleet_compatible::<L>(fleet),
        fleet.family(L::PAYLOAD_RING_KIND, layout::payload_spec::<L>()).version < u64::MAX,
        payload.first_id.spec_kind() == L::PAYLOAD_RING_KIND,
        payload.payload_version <= fleet.family(
            L::PAYLOAD_RING_KIND,
            layout::payload_spec::<L>(),
        ).version,
    ensures
        ({
            let after = transport::value_published::<L>(fleet, other);
            transport::gathered(after, payload, count) is None || transport::gathered(
                after,
                payload,
                count,
            ) == transport::gathered(fleet, payload, count)
        }),
    decreases count,
{
    if count > 0 {
        lemma_gathered_kept_or_gone::<L>(fleet, other, payload, (count - 1) as nat);
        lemma_chunk_kept_or_gone::<L>(fleet, other, payload, count - 1);
    }
}

/// A reference is never misread: whatever is put afterwards, by whichever member,
/// a reference stands for the value it stood for, or for nothing once a chunk has
/// been overwritten.
pub proof fn law_a_reference_is_never_misread<L: CacheLayout>(
    fleet: FleetView,
    payload: PayloadRef,
    key: Seq<u8>,
    other: Seq<u8>,
    expires_at_ms: Option<u64>,
)
    requires
        fleet.consistent(),
        transport::layout_sound::<L>(),
        transport::fleet_ready::<L>(fleet),
        payload.payload_version <= fleet.family(
            L::PAYLOAD_RING_KIND,
            layout::payload_spec::<L>(),
        ).version,
    ensures
        ({
            let after = transport::after_put::<L>(fleet, key, other, expires_at_ms);
            &&& transport::payload_of::<L>(after, payload) is None || transport::payload_of::<L>(
                after,
                payload,
            ) == transport::payload_of::<L>(fleet, payload)
            &&& payload.payload_version <= after.family(
                L::PAYLOAD_RING_KIND,
                layout::payload_spec::<L>(),
            ).version
        }),
{
    let published = transport::value_published::<L>(fleet, other);
    let after = transport::after_put::<L>(fleet, key, other, expires_at_ms);
    lemma_value_published::<L>(fleet, other);
    lemma_mutation_leaves_payloads::<L>(
        published,
        protocol::OP_PUT,
        protocol::put_bytes(
            key,
            transport::next_reference::<L>(fleet, other),
            expires_at_ms,
        ),
    );
    if payload.first_id.spec_kind() == L::PAYLOAD_RING_KIND {
        lemma_gathered_kept_or_gone::<L>(fleet, other, payload, payload.chunk_count as nat);
        lemma_gathered_from_ring(after, published, payload, payload.chunk_count as nat);
    }
}

/// Deletes and resets carry no value bytes: they change nothing that a reference
/// stands for.
pub proof fn law_deletes_and_resets_move_no_bytes<L: CacheLayout>(
    fleet: FleetView,
    payload: PayloadRef,
    op: u8,
    data: Seq<u8>,
)
    requires
        transport::layout_sound::<L>(),
    ensures
        transport::payload_of::<L>(
            transport::mutation_published::<L>(fleet, op, data),
            payload,
        ) == transport::payload_of::<L>(fleet, payload),
{
    let after = transport::mutation_published::<L>(fleet, op, data);
    lemma_mutation_leaves_payloads::<L>(fleet, op, data);
    if payload.first_id.spec_kind() == L::PAYLOAD_RING_KIND {
        lemma_gathered_from_ring(after, fleet, payload, payload.chunk_count as nat);
    }
}

/// Whether mutations are in revision order: none is newer than one behind it.
pub open spec fn in_revision_order(mutations: Seq<MutationView>) -> bool {
    forall|i: int, j: int|
        0 <= i < j < mutations.len() ==> !(#[trigger] mutations[i]).revision().newer(
            (#[trigger] mutations[j]).revision(),
        )
}

/// The place for a revision divides an ordered list into what is not newer and
/// what is newer.
proof fn lemma_place_divides(mutations: Seq<MutationView>, revision: CacheRevision)
    requires
        in_revision_order(mutations),
    ensures
        ({
            let at = transport::place_for(mutations, revision);
            &&& 0 <= at <= mutations.len()
            &&& forall|i: int|
                0 <= i < at ==> !(#[trigger] mutations[i]).revision().newer(revision)
            &&& forall|i: int|
                at <= i < mutations.len() ==> (#[trigger] mutations[i]).revision().newer(revision)
        }),
    decreases mutations.len(),
{
    if mutations.len() > 0 {
        let last = mutations.last();
        if last.revision().newer(revision) {
            lemma_place_divides(mutations.drop_last(), revision);
            let at = transport::place_for(mutations, revision);
            assert forall|i: int| 0 <= i < at implies !(
            #[trigger] mutations[i]).revision().newer(revision) by {
                assert(mutations.drop_last()[i] == mutations[i]);
            }
            assert forall|i: int| at <= i < mutations.len() implies (
            #[trigger] mutations[i]).revision().newer(revision) by {
                if i < mutations.len() - 1 {
                    assert(mutations.drop_last()[i] == mutations[i]);
                }
            }
        } else {
            assert forall|i: int| 0 <= i < mutations.len() implies !(
            #[trigger] mutations[i]).revision().newer(revision) by {
                if i < mutations.len() - 1 {
                    let end = mutations.len() - 1;
                    assert(!mutations[i].revision().newer(mutations[end].revision()));
                    protocol::law_revisions_are_totally_ordered(
                        mutations[i].revision(),
                        revision,
                        last.revision(),
                    );
                    protocol::law_revisions_are_totally_ordered(
                        revision,
                        last.revision(),
                        revision,
                    );
                }
            }
        }
    }
}

/// Readers consume mutations in revision order, however the lanes of the writers
/// lie side by side.
pub proof fn law_mutations_come_in_revision_order(frames: Seq<FrameView>)
    ensures
        in_revision_order(transport::mutations_in(frames)),
    decreases frames.len(),
{
    if frames.len() > 0 {
        law_mutations_come_in_revision_order(frames.drop_last());
        let before = transport::mutations_in(frames.drop_last());
        if let Some(mutation) = protocol::mutation_of(frames.last()) {
            let at = transport::place_for(before, mutation.revision());
            lemma_place_divides(before, mutation.revision());
            let after = before.insert(at, mutation);
            assert forall|i: int, j: int| 0 <= i < j < after.len() implies !(
            #[trigger] after[i]).revision().newer((#[trigger] after[j]).revision()) by {
                let from = if i < at {
                    i
                } else {
                    i - 1
                };
                let to = if j < at {
                    j
                } else {
                    j - 1
                };
                if i == at {
                    assert(after[j] == before[to]);
                } else if j == at {
                    assert(after[i] == before[from]);
                } else {
                    assert(after[i] == before[from]);
                    assert(after[j] == before[to]);
                }
            }
        }
    }
}

/// Each mutation is newer than the one published before it, whichever member
/// publishes it.
pub proof fn law_each_mutation_is_newer<L: CacheLayout>(fleet: FleetView, op: u8, data: Seq<u8>, later: u16)
    requires
        fleet.compatible(L::MUTATION_RING_KIND, layout::mutation_spec::<L>()),
        fleet.family(L::MUTATION_RING_KIND, layout::mutation_spec::<L>()).version < u64::MAX - 1,
    ensures
        transport::next_revision::<L>(
            FleetView { node: later, ..transport::mutation_published::<L>(fleet, op, data) },
        ).newer(transport::next_revision::<L>(fleet)),
{
}

/// Every member that follows the mutation ring up to date receives exactly the new
/// mutation, once and without loss.
pub proof fn law_followers_receive_each_mutation<L: CacheLayout>(
    fleet: FleetView,
    op: u8,
    data: Seq<u8>,
    mutation: MutationView,
)
    requires
        fleet.consistent(),
        fleet.has_room(L::MUTATION_RING_KIND, layout::mutation_spec::<L>(), 1),
        fleet.family(L::MUTATION_RING_KIND, layout::mutation_spec::<L>()).version < u64::MAX,
        data.len() <= L::MUTATION_RING_PAYLOAD,
        protocol::mutation_of(
            FrameView {
                id: transport::next_revision::<L>(fleet).mutation_id,
                kind: op,
                ver: transport::next_revision::<L>(fleet).sequence,
                payload: data,
            },
        ) == Some(mutation),
        forall|i: int|
            0 <= i < transport::mutation_lanes::<L>(fleet).len() ==> (
            #[trigger] transport::mutation_lanes::<L>(fleet)[i]).head() < id::COUNTER_SPAN,
    ensures
        ({
            let lanes = transport::mutation_lanes::<L>(
                transport::mutation_published::<L>(fleet, op, data),
            );
            let frames = model::lane_frames(lanes, transport::mutation_heads::<L>(fleet));
            &&& transport::mutations_in(frames) == seq![mutation]
            &&& transport::malformed_in(frames) == 0
            &&& model::lane_loss(lanes, transport::mutation_heads::<L>(fleet)) == (RingLoss {
                overwritten: 0,
                unavailable: 0,
            })
        }),
{
    let kind = L::MUTATION_RING_KIND;
    let spec = layout::mutation_spec::<L>();
    let versioned = transport::version_taken(fleet, kind, spec);
    let sequence = transport::next_revision::<L>(fleet).sequence;
    lemma_version_taken(fleet, kind, spec);
    model::lemma_family_consistent(fleet, kind, spec);
    assert forall|i: int| 0 <= i < versioned.family(kind, spec).lanes.len() implies (
    #[trigger] versioned.family(kind, spec).lanes[i]).head() < id::COUNTER_SPAN by {
        assert(versioned.family(kind, spec).lanes[i] == transport::mutation_lanes::<L>(fleet)[i]);
    }
    fleet_laws::law_subscribers_receive_each_publish(versioned, kind, spec, op, sequence, data);
    let frame = versioned.next_frame(kind, spec, op, sequence, data);
    let heads = transport::mutation_heads::<L>(fleet);
    assert(heads =~= Seq::new(
        versioned.family(kind, spec).lanes.len(),
        |i: int| versioned.family(kind, spec).lanes[i].head() as u64,
    ));
    let frames = seq![frame];
    assert(frames.drop_last() =~= seq![]);
    assert(frames.last() == frame);
    reveal_with_fuel(transport::mutations_in, 2);
    reveal_with_fuel(transport::malformed_in, 2);
    assert(transport::mutations_in(frames) =~= seq![mutation]);
}

/// The default layout can be used, with its documented limits: keys of 985 bytes
/// and values of 4 MiB. A fleet that was just joined is ready for it.
pub proof fn law_the_default_layout_is_ready(name: Seq<char>, size: u8, node: u16)
    requires
        node < size,
    ensures
        transport::layout_sound::<DefaultCacheLayout>(),
        transport::max_key::<DefaultCacheLayout>() == 985,
        transport::max_value::<DefaultCacheLayout>() == 4 * 1024 * 1024,
        transport::fleet_ready::<DefaultCacheLayout>(fleet::fresh_fleet(name, size, node)),
{
    layout::lemma_default_layout();
    reveal_with_fuel(vstd::arithmetic::power2::is_pow2, 11);
}

/// What a process has seen after it applied mutations, beside what it had seen.
pub open spec fn seen_after<L: CacheLayout>(
    seen: Set<Observed>,
    fleet: FleetView,
    mutations: Seq<MutationView>,
) -> Set<Observed>
    decreases mutations.len(),
{
    if mutations.len() == 0 {
        seen
    } else {
        seen_after::<L>(seen, fleet, mutations.drop_last()).insert(
            Observed {
                mutation: mutations.last(),
                value: transport::value_of::<L>(fleet, mutations.last()),
            },
        )
    }
}

/// Polling keeps the local cache current: whatever was polled, no later hit is
/// stale with regard to it.
pub proof fn law_polls_keep_the_cache_current<L: CacheLayout>(
    local: LocalView,
    seen: Set<Observed>,
    fleet: FleetView,
    mutations: Seq<MutationView>,
)
    requires
        local.consistent(),
        coherence::current(local, seen),
        coherence::sourced(local, seen),
    ensures
        ({
            let after = super::drained::<L>(local, fleet, mutations).local;
            let more = seen_after::<L>(seen, fleet, mutations);
            &&& after.consistent()
            &&& coherence::current(after, more)
            &&& coherence::sourced(after, more)
        }),
    decreases mutations.len(),
{
    if mutations.len() > 0 {
        let front = mutations.drop_last();
        law_polls_keep_the_cache_current::<L>(local, seen, fleet, front);
        let before = super::drained::<L>(local, fleet, front).local;
        let known = seen_after::<L>(seen, fleet, front);
        let observed = Observed {
            mutation: mutations.last(),
            value: transport::value_of::<L>(fleet, mutations.last()),
        };
        coherence::law_mutations_keep_the_cache_current(before, known, observed);
        coherence::law_mutations_keep_values_sourced(before, known, observed);
    }
}

/// Whether a local cache knows of nothing beyond a sequence.
pub open spec fn known_up_to(local: LocalView, sequence: u64) -> bool {
    &&& local.floor <= sequence
    &&& forall|i: int|
        0 <= i < local.entries.len() ==> (#[trigger] local.entries[i]).revision.sequence <= sequence
}

proof fn lemma_next_is_news(local: LocalView, key: Seq<u8>, revision: CacheRevision)
    requires
        local.coherent,
        revision.sequence > 0,
        known_up_to(local, (revision.sequence - 1) as u64),
    ensures
        local.accepts(key, revision),
        match local::place_of(local.entries, key) {
            Some(at) => revision.newer(local.entries[at].revision),
            None => true,
        },
{
    local::lemma_place(local.entries, key);
    if let Some(at) = local::place_of(local.entries, key) {
        assert(local.entries[at].revision.sequence < revision.sequence);
    }
}

/// Applying one mutation is one step.
proof fn lemma_drained_one<L: CacheLayout>(
    local: LocalView,
    fleet: FleetView,
    mutation: MutationView,
)
    ensures
        super::drained::<L>(local, fleet, seq![mutation]).local == local.applied(
            mutation,
            transport::value_of::<L>(fleet, mutation),
        ),
{
    reveal_with_fuel(super::drained, 2);
    assert(seq![mutation].drop_last() =~= seq![]);
    assert(seq![mutation].last() == mutation);
}

/// A put reaches every peer: a process that follows the mutation ring up to date
/// and polls reads the value that was put, until it runs out.
pub proof fn law_a_put_reaches_every_peer<L: CacheLayout>(
    fleet: FleetView,
    peer: LocalView,
    key: Seq<u8>,
    value: Seq<u8>,
    expires_at_ms: Option<u64>,
    now_ms: u64,
)
    requires
        fleet.consistent(),
        transport::layout_sound::<L>(),
        transport::fleet_ready::<L>(fleet),
        transport::put_refusal::<L>(key, value) is None,
        expires_at_ms != Some(0u64),
        forall|i: int|
            0 <= i < transport::mutation_lanes::<L>(fleet).len() ==> (
            #[trigger] transport::mutation_lanes::<L>(fleet)[i]).head() < id::COUNTER_SPAN,
        peer.consistent(),
        peer.coherent,
        known_up_to(
            peer,
            fleet.family(L::MUTATION_RING_KIND, layout::mutation_spec::<L>()).version,
        ),
    ensures
        ({
            let after = transport::after_put::<L>(fleet, key, value, expires_at_ms);
            let frames = model::lane_frames(
                transport::mutation_lanes::<L>(after),
                transport::mutation_heads::<L>(fleet),
            );
            super::drained::<L>(peer, after, transport::mutations_in(frames)).local.answer(
                key,
                now_ms,
            ) == if local::unexpired(expires_at_ms, now_ms) {
                ReadView::Hit {
                    value,
                    revision: transport::next_revision::<L>(fleet),
                    expires_at_ms,
                }
            } else {
                ReadView::Miss
            }
        }),
{
    let kind = L::MUTATION_RING_KIND;
    let spec = layout::mutation_spec::<L>();
    let published = transport::value_published::<L>(fleet, value);
    let after = transport::after_put::<L>(fleet, key, value, expires_at_ms);
    let payload = transport::next_reference::<L>(fleet, value);
    let revision = transport::next_revision::<L>(fleet);
    let mutation = MutationView::Put { key, revision, payload, expires_at_ms };
    let data = protocol::put_bytes(key, payload, expires_at_ms);
    transport::lemma_value_leaves_mutations::<L>(fleet, value);
    lemma_value_keeps_consistent::<L>(fleet, value);
    protocol::law_mutations_round_trip(
        revision.mutation_id,
        revision.sequence,
        key,
        payload,
        expires_at_ms,
    );
    protocol::lemma_put_len(key, payload, expires_at_ms);
    assert(transport::next_revision::<L>(published) == revision);
    assert(transport::mutation_heads::<L>(published) == transport::mutation_heads::<L>(fleet));
    law_followers_receive_each_mutation::<L>(published, protocol::OP_PUT, data, mutation);
    law_a_put_is_read_back::<L>(fleet, key, value, expires_at_ms);
    lemma_drained_one::<L>(peer, after, mutation);
    lemma_next_is_news(peer, key, revision);
    coherence::law_a_put_is_served(
        peer,
        Observed { mutation, value: transport::value_of::<L>(after, mutation) },
        key,
        now_ms,
    );
}

/// Publishing a value keeps the fleet consistent.
proof fn lemma_value_keeps_consistent<L: CacheLayout>(fleet: FleetView, value: Seq<u8>)
    requires
        fleet.consistent(),
        transport::layout_sound::<L>(),
        transport::fleet_ready::<L>(fleet),
        value.len() <= transport::max_value::<L>(),
    ensures
        transport::value_published::<L>(fleet, value).consistent(),
{
    let kind = L::PAYLOAD_RING_KIND;
    let spec = layout::payload_spec::<L>();
    let slot = L::PAYLOAD_RING_PAYLOAD as nat;
    let versioned = transport::version_taken(fleet, kind, spec);
    let ver = (fleet.family(kind, spec).version + 1) as u64;
    let list = chunks::chunk_list(value, slot);
    lemma_version_taken(fleet, kind, spec);
    chunks::lemma_chunk_sizes(value, slot);
    chunks::lemma_chunk_count(value, slot, L::PAYLOAD_RING_CAPACITY as nat);
    lemma_batch_keeps_consistent(versioned, kind, spec, transport::CHUNK_FRAME_KIND, ver, list);
}

proof fn lemma_batch_keeps_consistent(
    fleet: FleetView,
    kind: u8,
    spec: RingSpec,
    frame_kind: u8,
    ver: u64,
    payloads: Seq<Seq<u8>>,
)
    requires
        fleet.consistent(),
        fleet.has_room(kind, spec, payloads.len()),
        forall|i: int|
            0 <= i < payloads.len() ==> (#[trigger] payloads[i]).len() <= spec.payload_capacity,
    ensures
        fleet.published_batch(kind, spec, frame_kind, ver, payloads).consistent(),
        fleet.published_batch(kind, spec, frame_kind, ver, payloads).compatible(kind, spec),
    decreases payloads.len(),
{
    if payloads.len() > 0 {
        let front = payloads.drop_last();
        assert forall|i: int| 0 <= i < front.len() implies (#[trigger] front[i]).len()
            <= spec.payload_capacity by {
            assert(front[i] == payloads[i]);
        }
        lemma_batch_keeps_consistent(fleet, kind, spec, frame_kind, ver, front);
        model::lemma_published_batch(fleet, kind, spec, frame_kind, ver, front);
        let last = payloads.len() - 1;
        assert(payloads[last].len() <= spec.payload_capacity);
        fleet_laws::law_publishing_keeps_the_fleet_consistent(
            fleet.published_batch(kind, spec, frame_kind, ver, front),
            kind,
            spec,
            frame_kind,
            ver,
            payloads.last(),
        );
    }
}

/// A delete or a reset reaches every peer: a process that follows the mutation ring
/// up to date and polls no longer reads the keys that it affects.
pub proof fn law_deletes_and_resets_reach_every_peer<L: CacheLayout>(
    fleet: FleetView,
    peer: LocalView,
    key: Seq<u8>,
    everything: bool,
    now_ms: u64,
)
    requires
        fleet.consistent(),
        transport::layout_sound::<L>(),
        transport::fleet_ready::<L>(fleet),
        key.len() <= transport::max_key::<L>(),
        forall|i: int|
            0 <= i < transport::mutation_lanes::<L>(fleet).len() ==> (
            #[trigger] transport::mutation_lanes::<L>(fleet)[i]).head() < id::COUNTER_SPAN,
        peer.consistent(),
        peer.coherent,
        known_up_to(
            peer,
            fleet.family(L::MUTATION_RING_KIND, layout::mutation_spec::<L>()).version,
        ),
    ensures
        ({
            let after = if everything {
                transport::mutation_published::<L>(
                    fleet,
                    protocol::OP_RESET,
                    protocol::reset_bytes(),
                )
            } else {
                transport::mutation_published::<L>(
                    fleet,
                    protocol::OP_DELETE,
                    protocol::delete_bytes(key),
                )
            };
            let frames = model::lane_frames(
                transport::mutation_lanes::<L>(after),
                transport::mutation_heads::<L>(fleet),
            );
            super::drained::<L>(peer, after, transport::mutations_in(frames)).local.answer(
                key,
                now_ms,
            ) == ReadView::Miss
        }),
{
    let revision = transport::next_revision::<L>(fleet);
    let op = if everything {
        protocol::OP_RESET
    } else {
        protocol::OP_DELETE
    };
    let data = if everything {
        protocol::reset_bytes()
    } else {
        protocol::delete_bytes(key)
    };
    let mutation = if everything {
        MutationView::Reset { revision }
    } else {
        MutationView::Delete { key, revision }
    };
    let nowhere = PayloadRef {
        first_id: revision.mutation_id,
        payload_version: 0,
        chunk_count: 0,
        value_len: 0,
    };
    protocol::law_mutations_round_trip(
        revision.mutation_id,
        revision.sequence,
        key,
        nowhere,
        None,
    );
    protocol::lemma_put_len(key, nowhere, None);
    law_followers_receive_each_mutation::<L>(fleet, op, data, mutation);
    let after = transport::mutation_published::<L>(fleet, op, data);
    lemma_drained_one::<L>(peer, after, mutation);
    lemma_next_is_news(peer, key, revision);
    coherence::law_deleted_keys_miss(
        peer,
        Observed { mutation, value: transport::value_of::<L>(after, mutation) },
        key,
        now_ms,
    );
}

/// Applying mutations accounts for each of them exactly once: it was applied, or
/// ignored, or its payload was gone. A cache that needs a resynchronisation still needs
/// it afterwards.
proof fn lemma_drained_adds_up<L: CacheLayout>(
    local: LocalView,
    fleet: FleetView,
    mutations: Seq<MutationView>,
)
    ensures
        ({
            let done = super::drained::<L>(local, fleet, mutations);
            &&& done.applied + done.ignored + done.unavailable.len() == mutations.len()
            &&& done.local.coherent == local.coherent
            &&& done.local.capacity == local.capacity
        }),
    decreases mutations.len(),
{
    if mutations.len() > 0 {
        lemma_drained_adds_up::<L>(local, fleet, mutations.drop_last());
    }
}

/// A poll adds up: every mutation it observed was applied, or ignored, or is listed as
/// one whose payload was gone. It asks for a resynchronisation exactly where one was
/// needed before, or where mutations were lost or unreadable, and then no read is a
/// hit.
pub proof fn law_a_poll_adds_up<L: CacheLayout>(
    before: CacheView,
    after: CacheView,
    fleet: FleetView,
    poll: CachePoll,
    key: Seq<u8>,
    now_ms: u64,
)
    requires
        super::poll_settles::<L>(before, after, fleet, poll),
    ensures
        poll.observed == poll.applied + poll.ignored + poll.payload_unavailable@.len(),
        poll.resync_required == (!before.local.coherent || poll.loss.overwritten != 0
            || poll.loss.unavailable != 0 || poll.malformed != 0),
        poll.resync_required ==> after.local.answer(key, now_ms) == ReadView::ResyncRequired,
{
    let lanes = transport::mutation_lanes::<L>(fleet);
    let mutations = transport::mutations_in(model::lane_frames(lanes, before.cursor));
    let start = super::poll_start(before.local, poll.loss, poll.malformed);
    lemma_drained_adds_up::<L>(start, fleet, mutations);
    assert(poll.payload_unavailable@.len() == buf::all_contents(
        poll.payload_unavailable@,
    ).len());
}

/// A second poll is empty: where nothing has been published since, polling again
/// observes nothing, reports no loss, and leaves the cache as it is.
pub proof fn law_a_second_poll_is_empty<L: CacheLayout>(
    before: CacheView,
    between: CacheView,
    after: CacheView,
    fleet: FleetView,
    first: CachePoll,
    second: CachePoll,
)
    requires
        before.cursor.len() == transport::mutation_lanes::<L>(fleet).len(),
        super::poll_settles::<L>(before, between, fleet, first),
        super::poll_settles::<L>(between, after, fleet, second),
    ensures
        second.observed == 0,
        second.applied == 0,
        second.ignored == 0,
        second.payload_unavailable@.len() == 0,
        second.loss == (RingLoss { overwritten: 0, unavailable: 0 }),
        second.malformed == 0,
        second.resync_required == first.resync_required,
        after == between,
{
    fleet_laws::law_polling_lanes_again_gives_nothing(
        transport::mutation_lanes::<L>(fleet),
        before.cursor,
    );
    assert(second.payload_unavailable@.len() == buf::all_contents(
        second.payload_unavailable@,
    ).len());
}

/// A lost payload is reported, and nothing is served in its place: a put that is news
/// and whose bytes are gone is listed by its key, and the key reads as a miss.
pub proof fn law_lost_payloads_are_reported<L: CacheLayout>(
    local: LocalView,
    fleet: FleetView,
    mutations: Seq<MutationView>,
    key: Seq<u8>,
    revision: CacheRevision,
    payload: PayloadRef,
    expires_at_ms: Option<u64>,
    now_ms: u64,
)
    requires
        local.consistent(),
        transport::payload_of::<L>(fleet, payload) is None,
        super::drained::<L>(local, fleet, mutations).local.accepts(key, revision),
    ensures
        ({
            let before = super::drained::<L>(local, fleet, mutations);
            let put = MutationView::Put { key, revision, payload, expires_at_ms };
            let after = super::drained::<L>(local, fleet, mutations.push(put));
            &&& after.unavailable == before.unavailable.push(key)
            &&& after.local.answer(key, now_ms) == ReadView::Miss
        }),
{
    let put = MutationView::Put { key, revision, payload, expires_at_ms };
    assert(mutations.push(put).drop_last() =~= mutations);
    let before = super::drained::<L>(local, fleet, mutations).local;
    local::lemma_place(before.entries, key);
    local::lemma_place(before.applied(put, None).entries, key);
}

/// A reset of the rings starts afresh: every read misses, and polls are empty and ask
/// for no resynchronisation, until the next mutation.
pub proof fn law_a_reset_transport_starts_afresh<L: CacheLayout>(
    before: FleetView,
    after: FleetView,
    cache: CacheView,
    polled: CacheView,
    poll: CachePoll,
    capacity: nat,
    key: Seq<u8>,
    now_ms: u64,
)
    requires
        transport::layout_sound::<L>(),
        after == transport::rings_reset::<L>(before),
        cache == (CacheView {
            local: LocalView::fresh(capacity, 0),
            cursor: transport::mutation_heads::<L>(after),
        }),
        super::poll_settles::<L>(cache, polled, after, poll),
    ensures
        cache.local.answer(key, now_ms) == ReadView::Miss,
        poll.observed == 0,
        poll.loss == (RingLoss { overwritten: 0, unavailable: 0 }),
        poll.malformed == 0,
        !poll.resync_required,
        polled == cache,
{
    let lanes = transport::mutation_lanes::<L>(after);
    fleet_laws::law_fresh_rings_give_nothing(
        L::MUTATION_RING_KIND,
        layout::mutation_spec::<L>(),
        before.size,
        Seq::new(lanes.len(), |i: int| 0u64),
    );
}

/// A put lives for its term: right after a put that is not refused, the process that made
/// it, if it is trusted and up to date, reads the value in every millisecond before the
/// term is over and a miss from that moment on. The term is counted in milliseconds from
/// the put; a term of nothing lasts one millisecond, one that reaches beyond the end of
/// time ends there, and a put without a term is read for good.
pub proof fn law_a_put_lives_for_its_term<L: CacheLayout>(
    before: CacheView,
    after: CacheView,
    fleet_before: FleetView,
    fleet_after: FleetView,
    result: super::Result<CacheRevision>,
    key: Seq<u8>,
    value: Seq<u8>,
    ttl_ms: Option<u128>,
    put_at: u64,
    now_ms: u64,
)
    requires
        before.local.consistent(),
        before.local.coherent,
        fleet_before.family(L::MUTATION_RING_KIND, layout::mutation_spec::<L>()).version < u64::MAX,
        known_up_to(
            before.local,
            fleet_before.family(L::MUTATION_RING_KIND, layout::mutation_spec::<L>()).version,
        ),
        key.len() <= u16::MAX,
        39 + key.len() <= L::MUTATION_RING_PAYLOAD,
        value.len() <= L::PAYLOAD_RING_CAPACITY * L::PAYLOAD_RING_PAYLOAD,
        super::put_settles::<L>(
            before,
            after,
            fleet_before,
            fleet_after,
            result,
            key,
            value,
            transport::put_expiry(ttl_ms, put_at),
        ),
    ensures
        result is Ok,
        ttl_ms is None ==> after.local.answer(key, now_ms) == (ReadView::Hit {
            value,
            revision: result->Ok_0,
            expires_at_ms: None,
        }),
        ttl_ms matches Some(ttl_ms) ==> {
            let end: int = if ttl_ms == 0 {
                put_at + 1
            } else {
                put_at + ttl_ms
            };
            let expires_at_ms = if end <= u64::MAX {
                end as u64
            } else {
                u64::MAX
            };
            after.local.answer(key, now_ms) == (if now_ms < expires_at_ms {
                ReadView::Hit {
                    value,
                    revision: result->Ok_0,
                    expires_at_ms: Some(expires_at_ms),
                }
            } else {
                ReadView::Miss
            })
        },
{
    let revision = transport::next_revision::<L>(fleet_before);
    let nowhere = PayloadRef {
        first_id: revision.mutation_id,
        payload_version: 0,
        chunk_count: 0,
        value_len: 0,
    };
    let put = MutationView::Put {
        key,
        revision,
        payload: nowhere,
        expires_at_ms: transport::put_expiry(ttl_ms, put_at),
    };
    lemma_next_is_news(before.local, key, revision);
    coherence::law_a_put_is_served(
        before.local,
        Observed { mutation: put, value: Some(value) },
        key,
        now_ms,
    );
}

/// A put lives as long for every peer: a process that follows the mutation ring up to
/// date and polls reads the value in every millisecond before the term is over and a miss
/// from that moment on, counted from the put.
pub proof fn law_a_put_lives_as_long_for_every_peer<L: CacheLayout>(
    fleet: FleetView,
    peer: LocalView,
    key: Seq<u8>,
    value: Seq<u8>,
    ttl_ms: Option<u128>,
    put_at: u64,
    now_ms: u64,
)
    requires
        fleet.consistent(),
        transport::layout_sound::<L>(),
        transport::fleet_ready::<L>(fleet),
        key.len() <= u16::MAX,
        39 + key.len() <= L::MUTATION_RING_PAYLOAD,
        value.len() <= L::PAYLOAD_RING_CAPACITY * L::PAYLOAD_RING_PAYLOAD,
        forall|i: int|
            0 <= i < transport::mutation_lanes::<L>(fleet).len() ==> (
            #[trigger] transport::mutation_lanes::<L>(fleet)[i]).head() < id::COUNTER_SPAN,
        peer.consistent(),
        peer.coherent,
        known_up_to(
            peer,
            fleet.family(L::MUTATION_RING_KIND, layout::mutation_spec::<L>()).version,
        ),
    ensures
        ({
            let after = transport::after_put::<L>(
                fleet,
                key,
                value,
                transport::put_expiry(ttl_ms, put_at),
            );
            let frames = model::lane_frames(
                transport::mutation_lanes::<L>(after),
                transport::mutation_heads::<L>(fleet),
            );
            let read = super::drained::<L>(
                peer,
                after,
                transport::mutations_in(frames),
            ).local.answer(key, now_ms);
            let revision = transport::next_revision::<L>(fleet);
            &&& ttl_ms is None ==> read == (ReadView::Hit { value, revision, expires_at_ms: None })
            &&& ttl_ms matches Some(ttl_ms) ==> {
                let end: int = if ttl_ms == 0 {
                    put_at + 1
                } else {
                    put_at + ttl_ms
                };
                let expires_at_ms = if end <= u64::MAX {
                    end as u64
                } else {
                    u64::MAX
                };
                read == (if now_ms < expires_at_ms {
                    ReadView::Hit { value, revision, expires_at_ms: Some(expires_at_ms) }
                } else {
                    ReadView::Miss
                })
            }
        }),
{
    law_a_put_reaches_every_peer::<L>(
        fleet,
        peer,
        key,
        value,
        transport::put_expiry(ttl_ms, put_at),
        now_ms,
    );
}

/// Keys and values are bounded by the layout: a put is refused exactly where its key is
/// too long for the length field or for a mutation slot behind the 39 header bytes, or
/// where its value is longer than all slots of a payload lane. The key is complained of
/// first, with its length and the limit.
pub proof fn law_puts_are_bounded_by_the_layout<L: CacheLayout>(key: Seq<u8>, value: Seq<u8>)
    ensures
        ({
            let room = L::MUTATION_RING_PAYLOAD - 39;
            let longest = if room < u16::MAX {
                room
            } else {
                u16::MAX as int
            };
            let largest = L::PAYLOAD_RING_CAPACITY * L::PAYLOAD_RING_PAYLOAD;
            let refusal = transport::put_refusal::<L>(key, value);
            &&& key.len() > longest ==> refusal == Some(
                super::Error::KeyTooLarge {
                    key_len: key.len() as usize,
                    max: longest as usize,
                },
            )
            &&& key.len() <= longest && value.len() > largest ==> refusal == Some(
                super::Error::ValueTooLarge {
                    value_len: value.len() as usize,
                    max: largest as usize,
                },
            )
            &&& key.len() <= longest && value.len() <= largest ==> refusal is None
        }),
{
}

/// Mutations are numbered: one more mutation takes the next version of its ring as its
/// sequence and the next identifier of its member, and stands at the end of the lane of
/// that member. Other lanes and other rings stay as they were.
pub proof fn law_mutations_are_numbered<L: CacheLayout>(fleet: FleetView, op: u8, data: Seq<u8>)
    requires
        fleet.consistent(),
        fleet.compatible(L::MUTATION_RING_KIND, layout::mutation_spec::<L>()),
        fleet.family(L::MUTATION_RING_KIND, layout::mutation_spec::<L>()).version < u64::MAX,
    ensures
        ({
            let kind = L::MUTATION_RING_KIND;
            let spec = layout::mutation_spec::<L>();
            let before = fleet.family(kind, spec);
            let after = transport::mutation_published::<L>(fleet, op, data);
            let revision = transport::next_revision::<L>(fleet);
            let head = fleet.home(kind, spec).log.len();
            &&& revision.sequence == before.version + 1
            &&& revision.mutation_id == NetId64::minted(kind, fleet.node, head)
            &&& after.family(kind, spec).version == before.version + 1
            &&& after.home(kind, spec).log == fleet.home(kind, spec).log.push(
                FrameView {
                    id: revision.mutation_id,
                    kind: op,
                    ver: revision.sequence,
                    payload: data,
                },
            )
            &&& forall|i: int|
                0 <= i < before.lanes.len() && i != registry::lane_of(spec.topology, fleet.node)
                    ==> #[trigger] after.family(kind, spec).lanes[i] == before.lanes[i]
            &&& after.rings.remove(kind) == fleet.rings.remove(kind)
            &&& after.contest == fleet.contest
        }),
{
    let kind = L::MUTATION_RING_KIND;
    let spec = layout::mutation_spec::<L>();
    lemma_version_taken(fleet, kind, spec);
    model::lemma_family_consistent(fleet, kind, spec);
    let after = transport::mutation_published::<L>(fleet, op, data);
    assert(after.rings.remove(kind) =~= fleet.rings.remove(kind));
}

/// No mutation is lost or repeated on the way: one more frame adds the mutation that it
/// carries, once, wherever its revision puts it; a frame that carries none adds one to
/// the malformed ones.
pub proof fn law_every_mutation_is_handed_out_once(frames: Seq<FrameView>, frame: FrameView)
    ensures
        transport::mutations_in(Seq::<FrameView>::empty()) == Seq::<MutationView>::empty(),
        transport::malformed_in(Seq::<FrameView>::empty()) == 0,
        protocol::mutation_of(frame) matches Some(mutation) ==> {
            &&& transport::mutations_in(frames.push(frame)).to_multiset()
                == transport::mutations_in(frames).to_multiset().insert(mutation)
            &&& transport::mutations_in(frames.push(frame)).len() == transport::mutations_in(
                frames,
            ).len() + 1
            &&& transport::malformed_in(frames.push(frame)) == transport::malformed_in(frames)
        },
        protocol::mutation_of(frame) is None ==> {
            &&& transport::mutations_in(frames.push(frame)) == transport::mutations_in(frames)
            &&& transport::malformed_in(frames.push(frame)) == (if transport::malformed_in(frames)
                == u64::MAX {
                u64::MAX as int
            } else {
                transport::malformed_in(frames) + 1
            })
        },
{
    assert(frames.push(frame).drop_last() =~= frames);
    let before = transport::mutations_in(frames);
    if let Some(mutation) = protocol::mutation_of(frame) {
        law_mutations_come_in_revision_order(frames);
        lemma_place_divides(before, mutation.revision());
        let at = transport::place_for(before, mutation.revision());
        vstd::seq_lib::to_multiset_insert(before, at, mutation);
    }
}

/// Mutations are applied one after the other: applying two stretches is applying the
/// second to what the first left, and the counts and the list of lost payloads add up.
pub proof fn law_mutations_are_applied_in_turn<L: CacheLayout>(
    local: LocalView,
    fleet: FleetView,
    front: Seq<MutationView>,
    back: Seq<MutationView>,
)
    ensures
        ({
            let first = super::drained::<L>(local, fleet, front);
            let second = super::drained::<L>(first.local, fleet, back);
            let all = super::drained::<L>(local, fleet, front + back);
            &&& all.local == second.local
            &&& all.applied == first.applied + second.applied
            &&& all.ignored == first.ignored + second.ignored
            &&& all.unavailable == first.unavailable + second.unavailable
        }),
    decreases back.len(),
{
    let first = super::drained::<L>(local, fleet, front);
    if back.len() == 0 {
        assert(front + back =~= front);
        assert(first.unavailable + Seq::<Seq<u8>>::empty() =~= first.unavailable);
    } else {
        assert((front + back).drop_last() =~= front + back.drop_last());
        assert((front + back).last() == back.last());
        law_mutations_are_applied_in_turn::<L>(local, fleet, front, back.drop_last());
        assert(super::drained::<L>(local, fleet, front + back).unavailable =~= first.unavailable
            + super::drained::<L>(first.local, fleet, back).unavailable);
    }
}

/// One mutation is applied with the bytes that its reference stands for, and counted by
/// what became of it.
pub proof fn law_one_mutation_is_counted_once<L: CacheLayout>(
    local: LocalView,
    fleet: FleetView,
    mutation: MutationView,
)
    ensures
        ({
            let value = match mutation {
                MutationView::Put { payload, .. } => transport::payload_of::<L>(fleet, payload),
                _ => None,
            };
            let done = super::drained::<L>(local, fleet, seq![mutation]);
            let outcome = local.outcome(mutation, value);
            &&& done.local == local.applied(mutation, value)
            &&& outcome is Applied ==> done.applied == 1 && done.ignored == 0
                && done.unavailable.len() == 0
            &&& outcome is Ignored ==> done.applied == 0 && done.ignored == 1
                && done.unavailable.len() == 0
            &&& outcome matches OutcomeView::PayloadUnavailable { key } ==> done.applied == 0
                && done.ignored == 0 && done.unavailable == seq![key]
        }),
{
    reveal_with_fuel(super::drained, 2);
    assert(seq![mutation].drop_last() =~= seq![]);
    assert(seq![mutation].last() == mutation);
    lemma_drained_one::<L>(local, fleet, mutation);
    let done = super::drained::<L>(local, fleet, seq![mutation]);
    let value = transport::value_of::<L>(fleet, mutation);
    if let OutcomeView::PayloadUnavailable { key } = local.outcome(mutation, value) {
        assert(done.unavailable =~= seq![key]);
    }
}

/// Whether a fleet holds these bytes as chunk `i` of a value: under the identifier that
/// lies `i` behind that of the first chunk, with the version of the value, and of the
/// class of chunks.
pub open spec fn holds_chunk(fleet: FleetView, payload: PayloadRef, i: int, part: Seq<u8>) -> bool {
    let first = payload.first_id;
    fleet.found(
        NetId64::minted(
            first.spec_kind(),
            first.spec_node(),
            (first.spec_counter() + i) as nat,
        ),
    ) matches Some(frame) && frame.ver == payload.payload_version && frame.kind == 1
        && frame.payload == part
}

/// A reference stands for its value exactly as long as every chunk is there: each under
/// the next identifier, with the version of the value, and of the class of chunks. Then
/// the value is the chunks one behind the other, if it has the length that was written
/// down; where one chunk is gone or is another's, there is no value.
pub proof fn law_a_value_is_read_whole<L: CacheLayout>(
    fleet: FleetView,
    payload: PayloadRef,
    parts: Seq<Seq<u8>>,
    missing: int,
)
    requires
        payload.first_id.spec_kind() == L::PAYLOAD_RING_KIND,
        payload.chunk_count > 0,
        parts.len() == payload.chunk_count,
        0 <= missing < payload.chunk_count,
    ensures
        (forall|i: int|
            0 <= i < parts.len() ==> holds_chunk(fleet, payload, i, #[trigger] parts[i]))
            ==> transport::payload_of::<L>(
            fleet,
            payload,
        ) == (if chunks::joined(parts).len() == payload.value_len {
            Some(chunks::joined(parts))
        } else {
            None
        }),
        (forall|part: Seq<u8>| !#[trigger] holds_chunk(fleet, payload, missing, part))
            ==> transport::payload_of::<L>(fleet, payload) is None,
{
    if forall|i: int|
        0 <= i < parts.len() ==> holds_chunk(fleet, payload, i, #[trigger] parts[i]) {
        assert forall|i: int| 0 <= i < parts.len() implies transport::chunk_at(fleet, payload, i)
            == Some(#[trigger] parts[i]) by {
            assert(holds_chunk(fleet, payload, i, parts[i]));
        }
        lemma_gathered_parts(fleet, payload, parts, parts.len());
        assert(parts.take(parts.len() as int) =~= parts);
    }
    if forall|part: Seq<u8>| !#[trigger] holds_chunk(fleet, payload, missing, part) {
        if let Some(part) = transport::chunk_at(fleet, payload, missing) {
            assert(holds_chunk(fleet, payload, missing, part));
        }
        transport::lemma_gathered_stops(
            fleet,
            payload,
            missing as nat,
            payload.chunk_count as nat,
        );
    }
}

proof fn lemma_gathered_parts(
    fleet: FleetView,
    payload: PayloadRef,
    parts: Seq<Seq<u8>>,
    count: nat,
)
    requires
        count <= parts.len(),
        forall|i: int|
            0 <= i < parts.len() ==> transport::chunk_at(fleet, payload, i) == Some(
                #[trigger] parts[i],
            ),
    ensures
        transport::gathered(fleet, payload, count) == Some(
            chunks::joined(parts.take(count as int)),
        ),
    decreases count,
{
    if count > 0 {
        lemma_gathered_parts(fleet, payload, parts, (count - 1) as nat);
        assert(parts.take(count as int).drop_last() =~= parts.take(count - 1));
        assert(parts.take(count as int).last() == parts[count - 1]);
    } else {
        assert(parts.take(0) =~= seq![]);
    }
}

/// A layout can be used exactly where its rings differ in kind and are sound, a put
/// header fits a mutation slot, a payload slot holds something, and the chunks of a
/// payload lane can be counted and their bytes addressed.
pub proof fn law_what_makes_a_layout_sound<L: CacheLayout>()
    ensures
        transport::layout_sound::<L>() <==> L::MUTATION_RING_KIND != L::PAYLOAD_RING_KIND
            && layout::mutation_spec::<L>().valid() && layout::payload_spec::<L>().valid()
            && L::MUTATION_RING_PAYLOAD >= 39 && L::PAYLOAD_RING_PAYLOAD >= 1
            && L::PAYLOAD_RING_CAPACITY < 0x1_0000_0000 && L::PAYLOAD_RING_CAPACITY
            * L::PAYLOAD_RING_PAYLOAD <= usize::MAX,
{
}

/// Clearing the rings of a cache leaves everything else alone: the rings of other kinds,
/// the contest table and the minted counters stay as they were; both cache rings are
/// empty, and revisions are counted from the beginning again.
pub proof fn law_clearing_a_cache_spares_all_others<L: CacheLayout>(
    fleet: FleetView,
    other: u8,
    i: int,
)
    requires
        L::MUTATION_RING_KIND != L::PAYLOAD_RING_KIND,
    ensures
        ({
            let after = transport::rings_reset::<L>(fleet);
            let mutations = after.rings[L::MUTATION_RING_KIND];
            let payloads = after.rings[L::PAYLOAD_RING_KIND];
            &&& after.rings.contains_key(L::MUTATION_RING_KIND)
            &&& after.rings.contains_key(L::PAYLOAD_RING_KIND)
            &&& mutations.version == 0
            &&& payloads.version == 0
            &&& 0 <= i < mutations.lanes.len() ==> mutations.lanes[i].log.len() == 0
            &&& 0 <= i < payloads.lanes.len() ==> payloads.lanes[i].log.len() == 0
            &&& other != L::MUTATION_RING_KIND && other != L::PAYLOAD_RING_KIND ==> {
                &&& after.rings.contains_key(other) == fleet.rings.contains_key(other)
                &&& fleet.rings.contains_key(other) ==> after.rings[other] == fleet.rings[other]
            }
            &&& after.contest == fleet.contest
            &&& after.minted == fleet.minted
            &&& after.node == fleet.node
        }),
{
}

/// When a fleet takes mutations and puts: both rings can be used with the layout, the
/// lane of the member has a counter left for one mutation and for a whole lane of chunks,
/// and both version allocators have a number left.
pub proof fn law_what_makes_a_fleet_ready<L: CacheLayout>(fleet: FleetView)
    ensures
        ({
            let mutations = fleet.family(L::MUTATION_RING_KIND, layout::mutation_spec::<L>());
            let payloads = fleet.family(L::PAYLOAD_RING_KIND, layout::payload_spec::<L>());
            &&& transport::fleet_compatible::<L>(fleet) <==> fleet.compatible(
                L::MUTATION_RING_KIND,
                layout::mutation_spec::<L>(),
            ) && fleet.compatible(L::PAYLOAD_RING_KIND, layout::payload_spec::<L>())
            &&& transport::takes_mutation::<L>(fleet) <==> fleet.compatible(
                L::MUTATION_RING_KIND,
                layout::mutation_spec::<L>(),
            ) && mutations.home(fleet.node).log.len() < u64::MAX && mutations.version < u64::MAX
            &&& transport::fleet_ready::<L>(fleet) <==> transport::takes_mutation::<L>(fleet)
                && fleet.compatible(L::PAYLOAD_RING_KIND, layout::payload_spec::<L>())
                && payloads.home(fleet.node).log.len() + L::PAYLOAD_RING_CAPACITY <= u64::MAX
                && payloads.version < u64::MAX
        }),
{
}

/// A published put says what it did: it gives back the key, the next revision, the expiry
/// and a reference that stands for the value right away. The put that it gives back is
/// the one that the mutation ring carries at the end of the lane of this member.
pub proof fn law_a_published_put_says_what_it_did<L: CacheLayout>(
    before: FleetView,
    after: FleetView,
    result: super::Result<CacheMutation>,
    key: Seq<u8>,
    value: Seq<u8>,
    expires_at_ms: Option<u64>,
)
    requires
        before.consistent(),
        transport::layout_sound::<L>(),
        transport::fleet_ready::<L>(before),
        key.len() <= u16::MAX,
        39 + key.len() <= L::MUTATION_RING_PAYLOAD,
        value.len() <= L::PAYLOAD_RING_CAPACITY * L::PAYLOAD_RING_PAYLOAD,
        expires_at_ms != Some(0u64),
        transport::put_answers::<L>(before, after, result, key, value, expires_at_ms),
    ensures
        ({
            let kind = L::MUTATION_RING_KIND;
            let spec = layout::mutation_spec::<L>();
            let log = after.home(kind, spec).log;
            &&& result is Ok
            &&& result->Ok_0@ matches MutationView::Put {
                key: named,
                revision,
                payload,
                expires_at_ms: expiry,
            } && named == key && expiry == expires_at_ms && revision.sequence == before.family(
                kind,
                spec,
            ).version + 1 && revision.mutation_id == NetId64::minted(
                kind,
                before.node,
                before.home(kind, spec).log.len(),
            ) && payload.value_len == value.len() && transport::payload_of::<L>(after, payload)
                == Some(value)
            &&& log.len() == before.home(kind, spec).log.len() + 1
            &&& protocol::mutation_of(log.last()) == Some(result->Ok_0@)
        }),
{
    let published = transport::value_published::<L>(before, value);
    let payload = transport::next_reference::<L>(before, value);
    let revision = transport::next_revision::<L>(before);
    law_puts_are_bounded_by_the_layout::<L>(key, value);
    law_a_put_is_read_back::<L>(before, key, value, expires_at_ms);
    transport::lemma_value_leaves_mutations::<L>(before, value);
    lemma_value_keeps_consistent::<L>(before, value);
    law_mutations_are_numbered::<L>(
        published,
        protocol::OP_PUT,
        protocol::put_bytes(key, payload, expires_at_ms),
    );
    assert(transport::next_revision::<L>(published) == revision);
    protocol::law_mutations_round_trip(
        revision.mutation_id,
        revision.sequence,
        key,
        payload,
        expires_at_ms,
    );
}

/// A poll takes a new put in: a handle that is trusted, up to date and at the head of the
/// mutation ring observes exactly one mutation after a put of whichever member, applies
/// it, reports nothing lost, stands at the head again, and reads the value until the put
/// runs out.
pub proof fn law_a_poll_takes_a_new_put_in<L: CacheLayout>(
    fleet: FleetView,
    before: CacheView,
    after: CacheView,
    poll: CachePoll,
    key: Seq<u8>,
    value: Seq<u8>,
    expires_at_ms: Option<u64>,
    now_ms: u64,
)
    requires
        fleet.consistent(),
        transport::layout_sound::<L>(),
        transport::fleet_ready::<L>(fleet),
        key.len() <= u16::MAX,
        39 + key.len() <= L::MUTATION_RING_PAYLOAD,
        value.len() <= L::PAYLOAD_RING_CAPACITY * L::PAYLOAD_RING_PAYLOAD,
        expires_at_ms != Some(0u64),
        forall|i: int|
            0 <= i < transport::mutation_lanes::<L>(fleet).len() ==> (
            #[trigger] transport::mutation_lanes::<L>(fleet)[i]).head() < id::COUNTER_SPAN,
        before.local.consistent(),
        before.local.coherent,
        known_up_to(
            before.local,
            fleet.family(L::MUTATION_RING_KIND, layout::mutation_spec::<L>()).version,
        ),
        before.cursor == transport::mutation_heads::<L>(fleet),
        super::poll_settles::<L>(
            before,
            after,
            transport::after_put::<L>(fleet, key, value, expires_at_ms),
            poll,
        ),
    ensures
        poll.observed == 1,
        poll.applied == 1,
        poll.ignored == 0,
        poll.payload_unavailable@.len() == 0,
        poll.loss == (RingLoss { overwritten: 0, unavailable: 0 }),
        poll.malformed == 0,
        !poll.resync_required,
        after.local.capacity == before.local.capacity,
        after.cursor == transport::mutation_heads::<L>(
            transport::after_put::<L>(fleet, key, value, expires_at_ms),
        ),
        expires_at_ms is None ==> after.local.answer(key, now_ms) == (ReadView::Hit {
            value,
            revision: transport::next_revision::<L>(fleet),
            expires_at_ms,
        }),
        expires_at_ms matches Some(end) ==> after.local.answer(key, now_ms) == (if now_ms < end {
            ReadView::Hit { value, revision: transport::next_revision::<L>(fleet), expires_at_ms }
        } else {
            ReadView::Miss
        }),
{
    let kind = L::MUTATION_RING_KIND;
    let spec = layout::mutation_spec::<L>();
    let published = transport::value_published::<L>(fleet, value);
    let grown = transport::after_put::<L>(fleet, key, value, expires_at_ms);
    let payload = transport::next_reference::<L>(fleet, value);
    let revision = transport::next_revision::<L>(fleet);
    let mutation = MutationView::Put { key, revision, payload, expires_at_ms };
    let data = protocol::put_bytes(key, payload, expires_at_ms);
    let frames = model::lane_frames(transport::mutation_lanes::<L>(grown), before.cursor);
    law_puts_are_bounded_by_the_layout::<L>(key, value);
    law_a_put_reaches_every_peer::<L>(fleet, before.local, key, value, expires_at_ms, now_ms);
    transport::lemma_value_leaves_mutations::<L>(fleet, value);
    lemma_value_keeps_consistent::<L>(fleet, value);
    protocol::law_mutations_round_trip(
        revision.mutation_id,
        revision.sequence,
        key,
        payload,
        expires_at_ms,
    );
    protocol::lemma_put_len(key, payload, expires_at_ms);
    assert(transport::next_revision::<L>(published) == revision);
    assert(transport::mutation_heads::<L>(published) == before.cursor);
    law_followers_receive_each_mutation::<L>(published, protocol::OP_PUT, data, mutation);
    law_a_put_is_read_back::<L>(fleet, key, value, expires_at_ms);
    lemma_next_is_news(before.local, key, revision);
    law_one_mutation_is_counted_once::<L>(before.local, grown, mutation);
    lemma_drained_adds_up::<L>(before.local, grown, seq![mutation]);
    assert(poll.payload_unavailable@.len() == buf::all_contents(
        poll.payload_unavailable@,
    ).len());
    let versioned = transport::version_taken(published, kind, spec);
    lemma_version_taken(published, kind, spec);
    assert forall|i: int| 0 <= i < versioned.family(kind, spec).lanes.len() implies (
    #[trigger] versioned.family(kind, spec).lanes[i]).head() < id::COUNTER_SPAN by {
        assert(versioned.family(kind, spec).lanes[i] == transport::mutation_lanes::<L>(fleet)[i]);
    }
    fleet_laws::law_polling_reaches_the_head(
        versioned,
        kind,
        spec,
        protocol::OP_PUT,
        revision.sequence,
        data,
    );
    assert(before.cursor =~= Seq::new(
        versioned.family(kind, spec).lanes.len(),
        |i: int| versioned.family(kind, spec).lanes[i].head() as u64,
    ));
}

/// A delete and a reset are seen at once: the process that made one, if it is trusted and
/// up to date, misses on the deleted key, or on every key, at every moment, and its
/// position in the mutation ring stays. A key that is too long for a put is refused for a
/// delete too, and nothing changes.
pub proof fn law_deletes_and_resets_are_seen_at_once<L: CacheLayout>(
    before: CacheView,
    deleted: CacheView,
    cleared: CacheView,
    fleet_before: FleetView,
    fleet_deleted: FleetView,
    fleet_cleared: FleetView,
    delete_result: super::Result<CacheRevision>,
    reset_result: super::Result<CacheRevision>,
    key: Seq<u8>,
    other: Seq<u8>,
    now_ms: u64,
)
    requires
        before.local.consistent(),
        before.local.coherent,
        fleet_before.family(L::MUTATION_RING_KIND, layout::mutation_spec::<L>()).version < u64::MAX,
        known_up_to(
            before.local,
            fleet_before.family(L::MUTATION_RING_KIND, layout::mutation_spec::<L>()).version,
        ),
        super::delete_settles::<L>(
            before,
            deleted,
            fleet_before,
            fleet_deleted,
            delete_result,
            key,
        ),
        super::reset_settles::<L>(before, cleared, fleet_before, fleet_cleared, reset_result),
    ensures
        ({
            let version = fleet_before.family(
                L::MUTATION_RING_KIND,
                layout::mutation_spec::<L>(),
            ).version;
            let room = L::MUTATION_RING_PAYLOAD - 39;
            let fits = key.len() <= room && key.len() <= u16::MAX;
            &&& fits ==> {
                &&& delete_result is Ok
                &&& delete_result->Ok_0.sequence == version + 1
                &&& deleted.local.answer(key, now_ms) == ReadView::Miss
                &&& deleted.cursor == before.cursor
            }
            &&& !fits ==> {
                &&& delete_result is Err
                &&& delete_result->Err_0 is KeyTooLarge
                &&& deleted == before
                &&& fleet_deleted == fleet_before
            }
            &&& reset_result is Ok
            &&& reset_result->Ok_0.sequence == version + 1
            &&& cleared.local.answer(other, now_ms) == ReadView::Miss
            &&& cleared.cursor == before.cursor
        }),
{
    let revision = transport::next_revision::<L>(fleet_before);
    lemma_next_is_news(before.local, key, revision);
    lemma_next_is_news(before.local, other, revision);
    coherence::law_deleted_keys_miss(
        before.local,
        Observed { mutation: MutationView::Delete { key, revision }, value: None },
        key,
        now_ms,
    );
    coherence::law_deleted_keys_miss(
        before.local,
        Observed { mutation: MutationView::Reset { revision }, value: None },
        other,
        now_ms,
    );
}

} // verus!
