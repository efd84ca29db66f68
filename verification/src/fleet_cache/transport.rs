//! Publishing and following cache mutations.
//!
//! A put commits its value bytes to the payload ring first, then allocates its
//! place in the order of mutations, then publishes the mutation that refers to the
//! bytes. Readers follow the mutation ring alone and look payload chunks up by
//! their identifiers.

use std::marker::PhantomData;

use bytes::Bytes;
use vstd::prelude::*;

use super::chunks;
use super::error::{Error, Result};
use super::layout;
use super::layout::{CacheLayout, CacheMutationRecord, CachePayloadRecord};
use super::protocol;
use super::protocol::{CacheMutation, CacheRevision, MutationView, PayloadRef};
use crate::buf;
use crate::clock;
use crate::fleet::cursor::FleetLaneCursor;
use crate::fleet::model;
use crate::fleet::model::FleetView;
use crate::fleet::Fleet;
use crate::id::NetId64;
use crate::ring;
use crate::ring::cursor;
use crate::ring::cursor::RingLoss;
use crate::ring::registry::FamilyView;
use crate::ring::{Frame, FrameView, RingSpec};

verus! {

/// Message class of a payload chunk.
pub const CHUNK_FRAME_KIND: u8 = 1;

/// Largest key of a layout: what a put leaves room for in a mutation slot.
pub open spec fn max_key<L: CacheLayout>() -> int {
    let room = L::MUTATION_RING_PAYLOAD - protocol::PUT_HEADER_LEN;
    if room > u16::MAX {
        u16::MAX as int
    } else {
        room
    }
}

/// Largest value of a layout: all slots of one payload lane.
pub open spec fn max_value<L: CacheLayout>() -> int {
    L::PAYLOAD_RING_CAPACITY * L::PAYLOAD_RING_PAYLOAD
}

/// Whether a cache can use a layout.
pub open spec fn layout_sound<L: CacheLayout>() -> bool {
    &&& L::MUTATION_RING_KIND != L::PAYLOAD_RING_KIND
    &&& layout::mutation_spec::<L>().valid()
    &&& layout::payload_spec::<L>().valid()
    &&& L::MUTATION_RING_PAYLOAD >= protocol::PUT_HEADER_LEN
    &&& L::PAYLOAD_RING_PAYLOAD > 0
    &&& L::PAYLOAD_RING_CAPACITY <= u32::MAX
    &&& max_value::<L>() <= usize::MAX
}

/// Why a layout cannot be used: the first rule it breaks.
pub open spec fn layout_complaint<L: CacheLayout>() -> Seq<char> {
    if L::MUTATION_RING_KIND == L::PAYLOAD_RING_KIND {
        "mutation and payload ring kinds must differ"@
    } else if !layout::mutation_spec::<L>().valid() {
        "mutation ring spec is invalid"@
    } else if !layout::payload_spec::<L>().valid() {
        "payload ring spec is invalid"@
    } else if L::MUTATION_RING_PAYLOAD < protocol::PUT_HEADER_LEN {
        "mutation slots cannot hold a put header"@
    } else if L::PAYLOAD_RING_PAYLOAD == 0 {
        "payload slots cannot be empty"@
    } else {
        "payload ring is too large"@
    }
}

/// Whether a fleet can take a mutation of this layout.
pub open spec fn takes_mutation<L: CacheLayout>(fleet: FleetView) -> bool {
    &&& fleet.has_room(L::MUTATION_RING_KIND, layout::mutation_spec::<L>(), 1)
    &&& fleet.family(L::MUTATION_RING_KIND, layout::mutation_spec::<L>()).version < u64::MAX
}

/// Whether a fleet can take a put of this layout, whatever its size.
pub open spec fn fleet_ready<L: CacheLayout>(fleet: FleetView) -> bool {
    &&& takes_mutation::<L>(fleet)
    &&& fleet.has_room(
        L::PAYLOAD_RING_KIND,
        layout::payload_spec::<L>(),
        L::PAYLOAD_RING_CAPACITY as nat,
    )
    &&& fleet.family(L::PAYLOAD_RING_KIND, layout::payload_spec::<L>()).version < u64::MAX
}

/// Whether the rings of a fleet can be used with this layout.
pub open spec fn fleet_compatible<L: CacheLayout>(fleet: FleetView) -> bool {
    &&& fleet.compatible(L::MUTATION_RING_KIND, layout::mutation_spec::<L>())
    &&& fleet.compatible(L::PAYLOAD_RING_KIND, layout::payload_spec::<L>())
}

/// When a put made at `now_ms` runs out: never without a term, else after at least
/// one millisecond.
pub open spec fn put_expiry(ttl_ms: Option<u128>, now_ms: u64) -> Option<u64> {
    match ttl_ms {
        Some(ttl_ms) => Some(
            now_ms.saturating_add(
                if ttl_ms == 0 {
                    1
                } else {
                    clock::clamped(ttl_ms)
                },
            ),
        ),
        None => None,
    }
}

fn expiry_at(ttl_ms: Option<u128>, now_ms: u64) -> (expires_at_ms: Option<u64>)
    ensures
        expires_at_ms == put_expiry(ttl_ms, now_ms),
        expires_at_ms != Some(0u64),
{
    match ttl_ms {
        Some(ttl_ms) => {
            let term: u64 = if ttl_ms == 0 {
                1
            } else {
                clock::clamp_ms(ttl_ms)
            };
            Some(now_ms.saturating_add(term))
        },
        None => None,
    }
}

/// The fleet with the version allocator of a kind moved on by one.
pub open spec fn version_taken(fleet: FleetView, kind: u8, spec: RingSpec) -> FleetView {
    fleet.with_family(
        kind,
        FamilyView {
            version: (fleet.family(kind, spec).version + 1) as u64,
            ..fleet.family(kind, spec)
        },
    )
}

/// The reference to a value that this member publishes next.
pub open spec fn next_reference<L: CacheLayout>(fleet: FleetView, value: Seq<u8>) -> PayloadRef {
    let spec = layout::payload_spec::<L>();
    PayloadRef {
        first_id: NetId64::minted(
            L::PAYLOAD_RING_KIND,
            fleet.node,
            fleet.home(L::PAYLOAD_RING_KIND, spec).head(),
        ),
        payload_version: (fleet.family(L::PAYLOAD_RING_KIND, spec).version + 1) as u64,
        chunk_count: chunks::chunk_list(value, L::PAYLOAD_RING_PAYLOAD as nat).len() as u32,
        value_len: value.len() as u64,
    }
}

/// The fleet after the bytes of a value were published.
pub open spec fn value_published<L: CacheLayout>(fleet: FleetView, value: Seq<u8>) -> FleetView {
    let spec = layout::payload_spec::<L>();
    version_taken(fleet, L::PAYLOAD_RING_KIND, spec).published_batch(
        L::PAYLOAD_RING_KIND,
        spec,
        CHUNK_FRAME_KIND,
        (fleet.family(L::PAYLOAD_RING_KIND, spec).version + 1) as u64,
        chunks::chunk_list(value, L::PAYLOAD_RING_PAYLOAD as nat),
    )
}

/// The revision of the mutation that this member publishes next.
pub open spec fn next_revision<L: CacheLayout>(fleet: FleetView) -> CacheRevision {
    let spec = layout::mutation_spec::<L>();
    CacheRevision {
        sequence: (fleet.family(L::MUTATION_RING_KIND, spec).version + 1) as u64,
        mutation_id: NetId64::minted(
            L::MUTATION_RING_KIND,
            fleet.node,
            fleet.home(L::MUTATION_RING_KIND, spec).head(),
        ),
    }
}

/// The fleet after a mutation was published.
pub open spec fn mutation_published<L: CacheLayout>(fleet: FleetView, op: u8, data: Seq<u8>) -> FleetView {
    let spec = layout::mutation_spec::<L>();
    version_taken(fleet, L::MUTATION_RING_KIND, spec).published(
        L::MUTATION_RING_KIND,
        spec,
        op,
        next_revision::<L>(fleet).sequence,
        data,
    )
}

/// The fleet after a put.
pub open spec fn after_put<L: CacheLayout>(
    fleet: FleetView,
    key: Seq<u8>,
    value: Seq<u8>,
    expires_at_ms: Option<u64>,
) -> FleetView {
    mutation_published::<L>(
        value_published::<L>(fleet, value),
        protocol::OP_PUT,
        protocol::put_bytes(key, next_reference::<L>(fleet, value), expires_at_ms),
    )
}

/// Whether an error is the refusal of a key or a value.
pub open spec fn put_refusal<L: CacheLayout>(key: Seq<u8>, value: Seq<u8>) -> Option<Error> {
    if key.len() > max_key::<L>() {
        Some(Error::KeyTooLarge { key_len: key.len() as usize, max: max_key::<L>() as usize })
    } else if value.len() > max_value::<L>() {
        Some(
            Error::ValueTooLarge {
                value_len: value.len() as usize,
                max: max_value::<L>() as usize,
            },
        )
    } else {
        None
    }
}

/// What a put answers and leaves behind.
pub open spec fn put_answers<L: CacheLayout>(
    before: FleetView,
    after: FleetView,
    result: Result<CacheMutation>,
    key: Seq<u8>,
    value: Seq<u8>,
    expires_at_ms: Option<u64>,
) -> bool {
    match put_refusal::<L>(key, value) {
        Some(error) => after == before && result == Err::<CacheMutation, Error>(error),
        None => {
            &&& after == after_put::<L>(before, key, value, expires_at_ms)
            &&& result is Ok
            &&& result->Ok_0@ == (MutationView::Put {
                key,
                revision: next_revision::<L>(before),
                payload: next_reference::<L>(before, value),
                expires_at_ms,
            })
        },
    }
}

/// Caller-owned position in the mutation ring.
#[derive(Clone, Debug, PartialEq, Eq)]
pub struct CacheMutationCursor {
    inner: FleetLaneCursor,
}

impl View for CacheMutationCursor {
    type V = Seq<u64>;

    closed spec fn view(&self) -> Seq<u64> {
        self.inner@
    }
}

/// Result of following the mutation ring.
#[derive(Clone, Debug, PartialEq, Eq)]
pub struct CacheMutationPoll {
    pub mutations: Vec<CacheMutation>,
    pub loss: RingLoss,
    /// Frames that carry no mutation.
    pub malformed: u64,
}

impl CacheMutationPoll {
    pub fn is_empty(&self) -> (empty: bool)
        ensures
            empty == (self.mutations@.len() == 0 && self.loss.overwritten == 0
                && self.loss.unavailable == 0 && self.malformed == 0),
    {
        self.mutations.len() == 0 && self.loss.is_empty() && self.malformed == 0
    }

    /// Whether mutations may have been missed, so that local state is uncertain.
    pub fn requires_full_resync(&self) -> (yes: bool)
        ensures
            yes == (self.loss.overwritten != 0 || self.loss.unavailable != 0 || self.malformed
                != 0),
    {
        !self.loss.is_empty() || self.malformed != 0
    }
}

/// The values of a list of mutations.
pub open spec fn mutation_views(mutations: Seq<CacheMutation>) -> Seq<MutationView> {
    mutations.map_values(|mutation: CacheMutation| mutation@)
}

/// Where a revision belongs in a list that is in revision order: behind everything
/// that is not newer.
pub open spec fn place_for(mutations: Seq<MutationView>, revision: CacheRevision) -> int
    decreases mutations.len(),
{
    if mutations.len() > 0 && mutations.last().revision().newer(revision) {
        place_for(mutations.drop_last(), revision)
    } else {
        mutations.len() as int
    }
}

/// The mutations among `frames`, in revision order.
pub open spec fn mutations_in(frames: Seq<FrameView>) -> Seq<MutationView>
    decreases frames.len(),
{
    if frames.len() == 0 {
        seq![]
    } else {
        let before = mutations_in(frames.drop_last());
        match protocol::mutation_of(frames.last()) {
            Some(mutation) => before.insert(place_for(before, mutation.revision()), mutation),
            None => before,
        }
    }
}

/// How many of the frames carry no mutation, saturating.
pub open spec fn malformed_in(frames: Seq<FrameView>) -> u64
    decreases frames.len(),
{
    if frames.len() == 0 {
        0
    } else {
        let before = malformed_in(frames.drop_last());
        if protocol::mutation_of(frames.last()) is None {
            before.saturating_add(1)
        } else {
            before
        }
    }
}

/// Decode polled frames into mutations, in revision order, and count the frames
/// that carry none.
pub fn collect_mutations(frames: &Vec<Frame>) -> (collected: (Vec<CacheMutation>, u64))
    ensures
        mutation_views(collected.0@) == mutations_in(cursor::poll::frame_views(frames@)),
        collected.1 == malformed_in(cursor::poll::frame_views(frames@)),
{
    let ghost views = cursor::poll::frame_views(frames@);
    let mut mutations: Vec<CacheMutation> = Vec::new();
    let mut malformed: u64 = 0;
    let mut i: usize = 0;
    proof {
        assert(mutation_views(mutations@) =~= seq![]);
        assert(views.take(0) =~= seq![]);
    }
    while i < frames.len()
        invariant
            i <= frames@.len(),
            views == cursor::poll::frame_views(frames@),
            mutation_views(mutations@) == mutations_in(views.take(i as int)),
            malformed == malformed_in(views.take(i as int)),
        decreases frames@.len() - i,
    {
        let frame = &frames[i];
        let ghost before = mutation_views(mutations@);
        proof {
            assert(views.take(i + 1).drop_last() =~= views.take(i as int));
            assert(views.take(i + 1).last() == frame@);
        }
        i = i + 1;
        match protocol::decode_mutation(frame) {
            Some(mutation) => {
                let revision = mutation.revision();
                let mut at: usize = mutations.len();
                proof {
                    assert(before.take(at as int) =~= before);
                }
                while at > 0 && mutations[at - 1].revision().is_newer_than(revision)
                    invariant
                        at <= mutations@.len(),
                        before == mutation_views(mutations@),
                        place_for(before, revision) == place_for(before.take(at as int), revision),
                    decreases at,
                {
                    proof {
                        assert(before.take(at as int).drop_last() =~= before.take(at - 1));
                        assert(before.take(at as int).last() == mutations@[at - 1]@);
                    }
                    at = at - 1;
                }
                proof {
                    if at > 0 {
                        assert(before.take(at as int).last() == mutations@[at - 1]@);
                    }
                    assert(place_for(before, revision) == at);
                }
                let ghost added = mutation@;
                mutations.insert(at, mutation);
                proof {
                    assert(mutation_views(mutations@) =~= before.insert(at as int, added));
                }
            },
            None => {
                malformed = malformed.saturating_add(1);
            },
        }
    }
    proof {
        assert(views.take(i as int) =~= views);
    }
    (mutations, malformed)
}

/// The bytes of chunk `i` of a value, while the payload ring holds it and it
/// belongs to the value.
pub open spec fn chunk_at(fleet: FleetView, payload: PayloadRef, i: int) -> Option<Seq<u8>> {
    let first = payload.first_id;
    match fleet.found(
        NetId64::minted(
            first.spec_kind(),
            first.spec_node(),
            (first.spec_counter() + i) as nat,
        ),
    ) {
        Some(frame) => if frame.ver == payload.payload_version && frame.kind == CHUNK_FRAME_KIND {
            Some(frame.payload)
        } else {
            None
        },
        None => None,
    }
}

/// The first `count` chunks of a value, one behind the other, if all are there.
pub open spec fn gathered(fleet: FleetView, payload: PayloadRef, count: nat) -> Option<Seq<u8>>
    decreases count,
{
    if count == 0 {
        Some(seq![])
    } else {
        match (
            gathered(fleet, payload, (count - 1) as nat),
            chunk_at(fleet, payload, count - 1),
        ) {
            (Some(front), Some(chunk)) => Some(front + chunk),
            _ => None,
        }
    }
}

/// The value that a reference stands for, while the payload ring holds all of it.
pub open spec fn payload_of<L: CacheLayout>(fleet: FleetView, payload: PayloadRef) -> Option<Seq<u8>> {
    if payload.first_id.spec_kind() != L::PAYLOAD_RING_KIND || payload.chunk_count == 0 {
        None
    } else {
        match gathered(fleet, payload, payload.chunk_count as nat) {
            Some(value) => if value.len() == payload.value_len {
                Some(value)
            } else {
                None
            },
            None => None,
        }
    }
}

/// The bytes that come with a mutation: those of a put, while they are there.
pub open spec fn value_of<L: CacheLayout>(fleet: FleetView, mutation: MutationView) -> Option<
    Seq<u8>,
> {
    match mutation {
        MutationView::Put { payload, .. } => payload_of::<L>(fleet, payload),
        _ => None,
    }
}

/// Transport of one cache domain. It carries no state of its own: the rings belong
/// to the fleet that each operation is given.
pub struct CacheTransport<L: CacheLayout> {
    layout: PhantomData<L>,
}

impl<L: CacheLayout> Clone for CacheTransport<L> {
    fn clone(&self) -> (copy: Self) {
        CacheTransport { layout: PhantomData }
    }
}

impl<L: CacheLayout> CacheTransport<L> {
    /// The transport of `L`, if the layout can be used.
    pub fn new() -> (transport: Result<CacheTransport<L>>)
        ensures
            match transport {
                Ok(_) => layout_sound::<L>(),
                Err(error) => !layout_sound::<L>() && (error matches Error::InvalidLayout(message)
                    && message@ == layout_complaint::<L>()),
            },
    {
        proof {
            layout::lemma_layout_records::<L>();
        }
        if L::MUTATION_RING_KIND == L::PAYLOAD_RING_KIND {
            return Err(Error::InvalidLayout("mutation and payload ring kinds must differ"));
        }
        if !RingSpec::of::<CacheMutationRecord<L>>().is_valid() {
            return Err(Error::InvalidLayout("mutation ring spec is invalid"));
        }
        if !RingSpec::of::<CachePayloadRecord<L>>().is_valid() {
            return Err(Error::InvalidLayout("payload ring spec is invalid"));
        }
        if L::MUTATION_RING_PAYLOAD < protocol::PUT_HEADER_LEN {
            return Err(Error::InvalidLayout("mutation slots cannot hold a put header"));
        }
        if L::PAYLOAD_RING_PAYLOAD == 0 {
            return Err(Error::InvalidLayout("payload slots cannot be empty"));
        }
        if L::PAYLOAD_RING_CAPACITY as u64 > u32::MAX as u64
            || L::PAYLOAD_RING_CAPACITY.checked_mul(L::PAYLOAD_RING_PAYLOAD).is_none() {
            return Err(Error::InvalidLayout("payload ring is too large"));
        }
        Ok(CacheTransport { layout: PhantomData })
    }

    /// Whether the rings of a fleet can be used with this layout.
    pub fn is_compatible(&self, fleet: &Fleet) -> (yes: bool)
        requires
            fleet.wf(),
        ensures
            yes == fleet_compatible::<L>(fleet@),
    {
        proof {
            layout::lemma_layout_records::<L>();
        }
        fleet.is_compatible::<CacheMutationRecord<L>>()
            && fleet.is_compatible::<CachePayloadRecord<L>>()
    }

    /// Whether a fleet can take a put of this layout, whatever its size.
    pub fn is_ready(&self, fleet: &Fleet) -> (yes: bool)
        requires
            fleet.wf(),
        ensures
            yes == fleet_ready::<L>(fleet@),
    {
        proof {
            layout::lemma_layout_records::<L>();
        }
        fleet.has_room::<CacheMutationRecord<L>>(1) && fleet.has_room::<CachePayloadRecord<L>>(
            L::PAYLOAD_RING_CAPACITY as u64,
        ) && fleet.current_version::<CacheMutationRecord<L>>() < u64::MAX
            && fleet.current_version::<CachePayloadRecord<L>>() < u64::MAX
    }

    /// Refuse a key that a put could not carry.
    pub fn validate_key(&self, key: &[u8]) -> (checked: Result<()>)
        requires
            layout_sound::<L>(),
        ensures
            checked == (if key@.len() > max_key::<L>() {
                Err(
                    Error::KeyTooLarge { key_len: key@.len() as usize, max: max_key::<L>() as usize },
                )
            } else {
                Ok(())
            }),
    {
        let room: usize = L::MUTATION_RING_PAYLOAD - protocol::PUT_HEADER_LEN;
        let max: usize = if room > u16::MAX as usize {
            u16::MAX as usize
        } else {
            room
        };
        if key.len() > max {
            return Err(Error::KeyTooLarge { key_len: key.len(), max });
        }
        Ok(())
    }

    /// Refuse a put that the rings could not carry.
    pub fn validate_put(&self, key: &[u8], value: &[u8]) -> (checked: Result<()>)
        requires
            layout_sound::<L>(),
        ensures
            checked == (match put_refusal::<L>(key@, value@) {
                Some(error) => Err(error),
                None => Ok(()),
            }),
    {
        match self.validate_key(key) {
            Ok(_) => {},
            Err(error) => {
                return Err(error);
            },
        }
        let max: usize = L::PAYLOAD_RING_CAPACITY * L::PAYLOAD_RING_PAYLOAD;
        if value.len() > max {
            return Err(Error::ValueTooLarge { value_len: value.len(), max });
        }
        Ok(())
    }

    fn publish_mutation(&self, fleet: &mut Fleet, op: u8, data: Bytes) -> (revision: CacheRevision)
        requires
            old(fleet).wf(),
            old(fleet)@.has_room(L::MUTATION_RING_KIND, layout::mutation_spec::<L>(), 1),
            old(fleet)@.family(L::MUTATION_RING_KIND, layout::mutation_spec::<L>()).version
                < u64::MAX,
            buf::bytes_contents(data).len() <= L::MUTATION_RING_PAYLOAD,
        ensures
            final(fleet).wf(),
            revision == next_revision::<L>(old(fleet)@),
            final(fleet)@ == mutation_published::<L>(
                old(fleet)@,
                op,
                buf::bytes_contents(data),
            ),
    {
        proof {
            layout::lemma_layout_records::<L>();
        }
        let sequence: u64 = fleet.next_version::<CacheMutationRecord<L>>();
        let mutation_id = fleet.publish::<CacheMutationRecord<L>>(op, sequence, data);
        CacheRevision { sequence, mutation_id }
    }

    /// Publish a put whose term starts when the wall clock is read.
    pub fn publish_put(
        &self,
        fleet: &mut Fleet,
        key: &[u8],
        value: &[u8],
        ttl_ms: Option<u128>,
    ) -> (result: Result<CacheMutation>)
        requires
            old(fleet).wf(),
            layout_sound::<L>(),
            put_refusal::<L>(key@, value@) is None ==> fleet_ready::<L>(old(fleet)@),
        ensures
            final(fleet).wf(),
            exists|now_ms: u64|
                put_answers::<L>(
                    old(fleet)@,
                    final(fleet)@,
                    result,
                    key@,
                    value@,
                    #[trigger] put_expiry(ttl_ms, now_ms),
                ),
    {
        let now_ms: u64 = match ttl_ms {
            Some(_) => clock::now_ms(),
            None => 0,
        };
        self.publish_put_at(fleet, key, value, ttl_ms, now_ms)
    }

    /// [`CacheTransport::publish_put`] with an explicit clock.
    pub fn publish_put_at(
        &self,
        fleet: &mut Fleet,
        key: &[u8],
        value: &[u8],
        ttl_ms: Option<u128>,
        now_ms: u64,
    ) -> (result: Result<CacheMutation>)
        requires
            old(fleet).wf(),
            layout_sound::<L>(),
            put_refusal::<L>(key@, value@) is None ==> fleet_ready::<L>(old(fleet)@),
        ensures
            final(fleet).wf(),
            put_answers::<L>(
                old(fleet)@,
                final(fleet)@,
                result,
                key@,
                value@,
                put_expiry(ttl_ms, now_ms),
            ),
    {
        match self.validate_put(key, value) {
            Ok(_) => {},
            Err(error) => {
                return Err(error);
            },
        }
        let expires_at_ms: Option<u64> = expiry_at(ttl_ms, now_ms);
        let ghost before = fleet@;
        let ghost kind = L::PAYLOAD_RING_KIND;
        let ghost spec = layout::payload_spec::<L>();
        let ghost slot = L::PAYLOAD_RING_PAYLOAD as nat;
        proof {
            layout::lemma_layout_records::<L>();
            fleet.lemma_consistent();
            chunks::lemma_chunk_sizes(value@, slot);
            chunks::lemma_chunk_count(value@, slot, L::PAYLOAD_RING_CAPACITY as nat);
            model::lemma_family_consistent(before, kind, spec);
        }
        let pieces = chunks::cut(value, L::PAYLOAD_RING_PAYLOAD);
        let chunk_count: u32 = pieces.len() as u32;
        proof {
            assert forall|i: int| 0 <= i < pieces@.len() implies buf::bytes_contents(
                #[trigger] pieces@[i],
            ).len() <= slot by {
                assert(buf::all_contents(pieces@)[i] == chunks::chunk_list(value@, slot)[i]);
            }
        }
        let payload_version: u64 = fleet.next_version::<CachePayloadRecord<L>>();
        let ghost versioned = fleet@;
        let first_id = fleet.publish_batch::<CachePayloadRecord<L>>(
            CHUNK_FRAME_KIND,
            payload_version,
            pieces,
        );
        proof {
            assert(versioned == version_taken(before, kind, spec));
            lemma_version_keeps_home(before, kind, spec);
            lemma_value_leaves_mutations::<L>(before, value@);
        }
        let payload = PayloadRef {
            first_id,
            payload_version,
            chunk_count,
            value_len: value.len() as u64,
        };
        let data = protocol::encode_put(key, payload, expires_at_ms);
        let revision = self.publish_mutation(fleet, protocol::OP_PUT, data);
        Ok(
            CacheMutation::Put {
                key: buf::bytes_from_slice(key),
                revision,
                payload,
                expires_at_ms,
            },
        )
    }

    /// Publish a delete.
    pub fn publish_delete(&self, fleet: &mut Fleet, key: &[u8]) -> (result: Result<CacheMutation>)
        requires
            old(fleet).wf(),
            layout_sound::<L>(),
            key@.len() <= max_key::<L>() ==> takes_mutation::<L>(old(fleet)@),
        ensures
            final(fleet).wf(),
            if key@.len() > max_key::<L>() {
                &&& final(fleet)@ == old(fleet)@
                &&& result == Err::<CacheMutation, Error>(
                    Error::KeyTooLarge { key_len: key@.len() as usize, max: max_key::<L>() as usize },
                )
            } else {
                &&& final(fleet)@ == mutation_published::<L>(
                    old(fleet)@,
                    protocol::OP_DELETE,
                    protocol::delete_bytes(key@),
                )
                &&& result is Ok
                &&& result->Ok_0@ == (MutationView::Delete {
                    key: key@,
                    revision: next_revision::<L>(old(fleet)@),
                })
            },
    {
        match self.validate_key(key) {
            Ok(_) => {},
            Err(error) => {
                return Err(error);
            },
        }
        let data = protocol::encode_delete(key);
        let revision = self.publish_mutation(fleet, protocol::OP_DELETE, data);
        Ok(CacheMutation::Delete { key: buf::bytes_from_slice(key), revision })
    }

    /// Publish a reset.
    pub fn publish_reset(&self, fleet: &mut Fleet) -> (result: Result<CacheMutation>)
        requires
            old(fleet).wf(),
            layout_sound::<L>(),
            takes_mutation::<L>(old(fleet)@),
        ensures
            final(fleet).wf(),
            final(fleet)@ == mutation_published::<L>(
                old(fleet)@,
                protocol::OP_RESET,
                protocol::reset_bytes(),
            ),
            result is Ok,
            result->Ok_0@ == (MutationView::Reset { revision: next_revision::<L>(old(fleet)@) }),
    {
        let data = protocol::encode_reset();
        let revision = self.publish_mutation(fleet, protocol::OP_RESET, data);
        Ok(CacheMutation::Reset { revision })
    }

    /// Start after every mutation currently retained.
    pub fn cursor_at_head(&self, fleet: &Fleet) -> (cursor: CacheMutationCursor)
        requires
            fleet.wf(),
            fleet@.compatible(L::MUTATION_RING_KIND, layout::mutation_spec::<L>()),
        ensures
            cursor@ == mutation_heads::<L>(fleet@),
    {
        proof {
            layout::lemma_layout_records::<L>();
        }
        CacheMutationCursor { inner: fleet.lane_cursor_at_head::<CacheMutationRecord<L>>() }
    }

    /// Replay the mutation history still retained.
    pub fn cursor_from_start(&self, fleet: &Fleet) -> (cursor: CacheMutationCursor)
        requires
            fleet.wf(),
            fleet@.compatible(L::MUTATION_RING_KIND, layout::mutation_spec::<L>()),
        ensures
            cursor@ == Seq::new(mutation_lanes::<L>(fleet@).len(), |i: int| 0u64),
    {
        proof {
            layout::lemma_layout_records::<L>();
        }
        CacheMutationCursor { inner: fleet.lane_cursor_from_start::<CacheMutationRecord<L>>() }
    }

    /// Follow the mutation ring to its current heads.
    pub fn poll(&self, fleet: &Fleet, cursor: &mut CacheMutationCursor) -> (poll: CacheMutationPoll)
        requires
            fleet.wf(),
            fleet@.compatible(L::MUTATION_RING_KIND, layout::mutation_spec::<L>()),
            old(cursor)@.len() == mutation_lanes::<L>(fleet@).len(),
        ensures
            ({
                let lanes = mutation_lanes::<L>(fleet@);
                let frames = model::lane_frames(lanes, old(cursor)@);
                &&& mutation_views(poll.mutations@) == mutations_in(frames)
                &&& poll.loss == model::lane_loss(lanes, old(cursor)@)
                &&& poll.malformed == malformed_in(frames)
                &&& final(cursor)@ == model::lane_next(lanes, old(cursor)@)
            }),
    {
        proof {
            layout::lemma_layout_records::<L>();
        }
        let polled = fleet.poll_lanes::<CacheMutationRecord<L>>(&mut cursor.inner);
        let collected = collect_mutations(&polled.frames);
        CacheMutationPoll {
            mutations: collected.0,
            loss: polled.loss,
            malformed: collected.1,
        }
    }

    /// Read the value that a reference stands for. Nothing where a chunk has been
    /// overwritten or does not belong to the value.
    pub fn read_payload(&self, fleet: &Fleet, payload: PayloadRef) -> (value: Option<Bytes>)
        requires
            fleet.wf(),
        ensures
            match value {
                Some(value) => payload_of::<L>(fleet@, payload) == Some(buf::bytes_contents(value)),
                None => payload_of::<L>(fleet@, payload) is None,
            },
    {
        let first = payload.first_id;
        if first.kind() != L::PAYLOAD_RING_KIND || payload.chunk_count == 0 {
            return None;
        }
        let mut value: Vec<u8> = Vec::new();
        let mut i: u32 = 0;
        proof {
            assert(value@ =~= seq![]);
        }
        while i < payload.chunk_count
            invariant
                fleet.wf(),
                first == payload.first_id,
                i <= payload.chunk_count,
                gathered(fleet@, payload, i as nat) == Some(value@),
            decreases payload.chunk_count - i,
        {
            let counter: u64 = first.counter() + i as u64;
            let chunk_id = NetId64::make(first.kind(), first.node(), counter);
            match fleet.read(chunk_id) {
                Some(frame) => {
                    if frame.ver != payload.payload_version || frame.kind != CHUNK_FRAME_KIND {
                        proof {
                            assert(chunk_at(fleet@, payload, i as int) is None);
                            lemma_gathered_stops(
                                fleet@,
                                payload,
                                i as nat,
                                payload.chunk_count as nat,
                            );
                        }
                        return None;
                    }
                    let ghost front = value@;
                    let data = buf::bytes_as_slice(&frame.payload);
                    value.extend_from_slice(data);
                    proof {
                        assert(value@ =~= front + data@);
                        assert(chunk_at(fleet@, payload, i as int) == Some(data@));
                    }
                },
                None => {
                    proof {
                        assert(chunk_at(fleet@, payload, i as int) is None);
                        lemma_gathered_stops(
                            fleet@,
                            payload,
                            i as nat,
                            payload.chunk_count as nat,
                        );
                    }
                    return None;
                },
            }
            i = i + 1;
        }
        if value.len() as u64 != payload.value_len {
            return None;
        }
        Some(buf::bytes_from_slice(value.as_slice()))
    }

    /// Clear both rings during owner-controlled boot, while no member publishes.
    pub fn reset_rings(&self, fleet: &mut Fleet) -> (done: Result<()>)
        requires
            old(fleet).wf(),
            layout_sound::<L>(),
            fleet_compatible::<L>(old(fleet)@),
        ensures
            final(fleet).wf(),
            done is Ok,
            final(fleet)@ == rings_reset::<L>(old(fleet)@),
    {
        proof {
            layout::lemma_layout_records::<L>();
        }
        fleet.reset_ring::<CacheMutationRecord<L>>();
        fleet.reset_ring::<CachePayloadRecord<L>>();
        Ok(())
    }

    /// The last mutation sequence that the members allocated.
    pub fn current_revision_sequence(&self, fleet: &Fleet) -> (sequence: u64)
        requires
            fleet.wf(),
            fleet@.compatible(L::MUTATION_RING_KIND, layout::mutation_spec::<L>()),
        ensures
            sequence == fleet@.family(L::MUTATION_RING_KIND, layout::mutation_spec::<L>()).version,
    {
        proof {
            layout::lemma_layout_records::<L>();
        }
        fleet.current_version::<CacheMutationRecord<L>>()
    }
}

/// The lanes of the mutation ring.
pub open spec fn mutation_lanes<L: CacheLayout>(fleet: FleetView) -> Seq<ring::RingView> {
    fleet.family(L::MUTATION_RING_KIND, layout::mutation_spec::<L>()).lanes
}

/// The heads of all mutation lanes.
pub open spec fn mutation_heads<L: CacheLayout>(fleet: FleetView) -> Seq<u64> {
    Seq::new(
        mutation_lanes::<L>(fleet).len(),
        |i: int| mutation_lanes::<L>(fleet)[i].head() as u64,
    )
}

/// The fleet after both cache rings were cleared.
pub open spec fn rings_reset<L: CacheLayout>(fleet: FleetView) -> FleetView {
    fleet.with_family(
        L::MUTATION_RING_KIND,
        FamilyView::fresh(L::MUTATION_RING_KIND, layout::mutation_spec::<L>(), fleet.size),
    ).with_family(
        L::PAYLOAD_RING_KIND,
        FamilyView::fresh(L::PAYLOAD_RING_KIND, layout::payload_spec::<L>(), fleet.size),
    )
}

/// A missing chunk makes the whole value missing.
pub proof fn lemma_gathered_stops(fleet: FleetView, payload: PayloadRef, at: nat, count: nat)
    requires
        at < count,
        chunk_at(fleet, payload, at as int) is None,
    ensures
        gathered(fleet, payload, count) is None,
    decreases count,
{
    if at < count - 1 {
        lemma_gathered_stops(fleet, payload, at, (count - 1) as nat);
    }
}

/// Taking a version keeps the lanes of a kind.
proof fn lemma_version_keeps_home(fleet: FleetView, kind: u8, spec: RingSpec)
    requires
        fleet.compatible(kind, spec),
    ensures
        version_taken(fleet, kind, spec).home(kind, spec) == fleet.home(kind, spec),
        version_taken(fleet, kind, spec).family(kind, spec).lanes == fleet.family(kind, spec).lanes,
{
}

/// Publishing a value leaves the mutation ring as it was.
pub proof fn lemma_value_leaves_mutations<L: CacheLayout>(fleet: FleetView, value: Seq<u8>)
    requires
        fleet.consistent(),
        layout_sound::<L>(),
        fleet_compatible::<L>(fleet),
        fleet.family(L::PAYLOAD_RING_KIND, layout::payload_spec::<L>()).version < u64::MAX,
    ensures
        ({
            let after = value_published::<L>(fleet, value);
            &&& after.node == fleet.node
            &&& after.size == fleet.size
            &&& after.family(L::MUTATION_RING_KIND, layout::mutation_spec::<L>()) == fleet.family(
                L::MUTATION_RING_KIND,
                layout::mutation_spec::<L>(),
            )
            &&& after.compatible(L::MUTATION_RING_KIND, layout::mutation_spec::<L>())
        }),
{
    let kind = L::PAYLOAD_RING_KIND;
    let spec = layout::payload_spec::<L>();
    let versioned = version_taken(fleet, kind, spec);
    model::lemma_family_consistent(fleet, kind, spec);
    assert(versioned.consistent()) by {
        assert forall|other: u8| #[trigger] versioned.rings.contains_key(other) implies
            versioned.rings[other].kind == other && versioned.rings[other].consistent(
            versioned.size,
        ) by {
            if other != kind {
                assert(fleet.rings.contains_key(other));
            }
        }
    }
    model::lemma_published_batch(
        versioned,
        kind,
        spec,
        CHUNK_FRAME_KIND,
        (fleet.family(kind, spec).version + 1) as u64,
        chunks::chunk_list(value, L::PAYLOAD_RING_PAYLOAD as nat),
    );
    let after = value_published::<L>(fleet, value);
    let other = L::MUTATION_RING_KIND;
    assert(after.rings.contains_key(other) == versioned.rings.contains_key(other));
    assert(after.rings[other] == versioned.rings[other]);
}

/// A list of mutations is shown mutation by mutation, in the same order.
pub proof fn law_mutations_are_shown_in_place(mutations: Seq<CacheMutation>, i: int)
    ensures
        mutation_views(mutations).len() == mutations.len(),
        0 <= i < mutations.len() ==> mutation_views(mutations)[i] == mutations[i]@,
{
}

} // verus!
