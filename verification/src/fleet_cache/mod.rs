//! Fleet-coherent local cache over fleet rings.
//!
//! Values live in a bounded process-local cache. A dedicated mutation ring
//! propagates puts, deletes and resets; a separate addressable payload ring carries
//! the bytes of puts.

pub mod bounded;
pub mod chunks;
pub mod coherence;
pub mod error;
pub mod laws;
pub mod layout;
pub mod local;
pub mod protocol;
pub mod transport;

use bytes::Bytes;
use vstd::prelude::*;

use crate::buf;
use crate::clock;
use crate::fleet::model;
use crate::fleet::model::FleetView;
use crate::fleet::Fleet;
use crate::ring::cursor::RingLoss;

pub use error::{Error, Result};
pub use layout::{
    CacheLayout, DefaultCacheLayout, CACHE_MUTATION_RING_KIND, CACHE_PAYLOAD_RING_KIND,
};
pub use local::{ApplyOutcome, CacheEntry, CacheRead, LocalCache};
pub use protocol::{CacheMutation, CacheRevision, PayloadRef};
pub use transport::{CacheMutationCursor, CacheMutationPoll, CacheTransport};

verus! {

/// Entries of a local cache made without a capacity.
pub const DEFAULT_L1_CAPACITY: usize = 10_000;

/// Result of applying all currently visible cache mutations to the local cache.
#[derive(Clone, Debug, PartialEq, Eq)]
pub struct CachePoll {
    pub observed: usize,
    pub applied: usize,
    pub ignored: usize,
    pub payload_unavailable: Vec<Bytes>,
    pub loss: RingLoss,
    pub malformed: u64,
    pub resync_required: bool,
}

impl CachePoll {
    pub fn is_empty(&self) -> (empty: bool)
        ensures
            empty == (self.observed == 0 && self.loss.overwritten == 0 && self.loss.unavailable == 0
                && self.malformed == 0),
    {
        self.observed == 0 && self.loss.is_empty() && self.malformed == 0
    }
}

impl Default for CachePoll {
    /// A poll that saw nothing.
    fn default() -> (poll: CachePoll)
        ensures
            poll.observed == 0,
            poll.applied == 0,
            poll.ignored == 0,
            poll.payload_unavailable@.len() == 0,
            poll.loss == (RingLoss { overwritten: 0, unavailable: 0 }),
            poll.malformed == 0,
            !poll.resync_required,
    {
        CachePoll {
            observed: 0,
            applied: 0,
            ignored: 0,
            payload_unavailable: Vec::new(),
            loss: RingLoss::none(),
            malformed: 0,
            resync_required: false,
        }
    }
}

/// What applying a list of mutations comes to.
#[verifier::ext_equal]
pub struct Drained {
    pub local: local::LocalView,
    pub applied: nat,
    pub ignored: nat,
    pub unavailable: Seq<Seq<u8>>,
}

/// Apply mutations to a local cache, one after the other.
pub open spec fn drained<L: CacheLayout>(
    local: local::LocalView,
    fleet: FleetView,
    mutations: Seq<protocol::MutationView>,
) -> Drained
    decreases mutations.len(),
{
    if mutations.len() == 0 {
        Drained { local, applied: 0, ignored: 0, unavailable: seq![] }
    } else {
        let before = drained::<L>(local, fleet, mutations.drop_last());
        let mutation = mutations.last();
        let value = transport::value_of::<L>(fleet, mutation);
        let after = before.local.applied(mutation, value);
        match before.local.outcome(mutation, value) {
            local::OutcomeView::Applied => Drained {
                local: after,
                applied: before.applied + 1,
                ..before
            },
            local::OutcomeView::Ignored => Drained {
                local: after,
                ignored: before.ignored + 1,
                ..before
            },
            local::OutcomeView::PayloadUnavailable { key } => Drained {
                local: after,
                unavailable: before.unavailable.push(key),
                ..before
            },
        }
    }
}

/// The local cache that a poll starts from: distrusted where mutations were missed.
pub open spec fn poll_start(local: local::LocalView, loss: RingLoss, malformed: u64) -> local::LocalView {
    if loss.overwritten != 0 || loss.unavailable != 0 || malformed != 0 {
        local.distrusted()
    } else {
        local
    }
}

/// One process' cache handle: its local cache and its position in the mutation
/// ring.
pub struct Cache<L: CacheLayout> {
    transport: CacheTransport<L>,
    local: LocalCache,
    cursor: CacheMutationCursor,
}

/// What a cache handle holds, as values.
#[verifier::ext_equal]
pub struct CacheView {
    pub local: local::LocalView,
    pub cursor: Seq<u64>,
}

impl<L: CacheLayout> View for Cache<L> {
    type V = CacheView;

    closed spec fn view(&self) -> CacheView {
        CacheView { local: self.local@, cursor: self.cursor@ }
    }
}

impl<L: CacheLayout> Cache<L> {
    pub closed spec fn wf(&self) -> bool {
        &&& transport::layout_sound::<L>()
        &&& self.local.wf()
    }

    /// What the representation says of the value.
    pub proof fn lemma_wf_consistent(&self)
        requires
            self.wf(),
        ensures
            self@.local.consistent(),
            transport::layout_sound::<L>(),
    {
        self.local.lemma_wf_consistent();
    }

    /// Start with an empty coherent local cache and subscribe only to future
    /// mutations.
    pub fn new(fleet: &Fleet, l1_capacity: usize) -> (cache: Result<Cache<L>>)
        requires
            fleet.wf(),
            l1_capacity > 0,
            transport::layout_sound::<L>() ==> transport::fleet_compatible::<L>(fleet@),
        ensures
            match cache {
                Ok(cache) => {
                    &&& transport::layout_sound::<L>()
                    &&& cache.wf()
                    &&& cache@ == (CacheView {
                        local: local::LocalView::fresh(l1_capacity as nat, 0),
                        cursor: transport::mutation_heads::<L>(fleet@),
                    })
                },
                Err(error) => !transport::layout_sound::<L>() && (
                error matches Error::InvalidLayout(message) && message@
                    == transport::layout_complaint::<L>()),
            },
    {
        match CacheTransport::<L>::new() {
            Ok(transport) => {
                let cursor = transport.cursor_at_head(fleet);
                Ok(Cache { transport, local: LocalCache::new(l1_capacity), cursor })
            },
            Err(error) => Err(error),
        }
    }

    /// Start with an empty local cache and replay the mutation history that the ring
    /// still retains.
    pub fn replay_retained(fleet: &Fleet, l1_capacity: usize) -> (cache: Result<Cache<L>>)
        requires
            fleet.wf(),
            l1_capacity > 0,
            transport::layout_sound::<L>() ==> transport::fleet_compatible::<L>(fleet@),
        ensures
            match cache {
                Ok(cache) => {
                    &&& transport::layout_sound::<L>()
                    &&& cache.wf()
                    &&& cache@ == (CacheView {
                        local: local::LocalView::fresh(l1_capacity as nat, 0),
                        cursor: Seq::new(
                            transport::mutation_lanes::<L>(fleet@).len(),
                            |i: int| 0u64,
                        ),
                    })
                },
                Err(error) => !transport::layout_sound::<L>() && (
                error matches Error::InvalidLayout(message) && message@
                    == transport::layout_complaint::<L>()),
            },
    {
        match CacheTransport::<L>::new() {
            Ok(transport) => {
                let cursor = transport.cursor_from_start(fleet);
                Ok(Cache { transport, local: LocalCache::new(l1_capacity), cursor })
            },
            Err(error) => Err(error),
        }
    }

    /// [`Cache::new`] with [`DEFAULT_L1_CAPACITY`] entries.
    pub fn with_default_capacity(fleet: &Fleet) -> (cache: Result<Cache<L>>)
        requires
            fleet.wf(),
            transport::layout_sound::<L>() ==> transport::fleet_compatible::<L>(fleet@),
        ensures
            match cache {
                Ok(cache) => {
                    &&& transport::layout_sound::<L>()
                    &&& cache.wf()
                    &&& cache@ == (CacheView {
                        local: local::LocalView::fresh(DEFAULT_L1_CAPACITY as nat, 0),
                        cursor: transport::mutation_heads::<L>(fleet@),
                    })
                },
                Err(error) => !transport::layout_sound::<L>() && (
                error matches Error::InvalidLayout(message) && message@
                    == transport::layout_complaint::<L>()),
            },
    {
        Cache::new(fleet, DEFAULT_L1_CAPACITY)
    }

    /// Whether a fleet can take a put, whatever its size.
    pub fn is_ready(&self, fleet: &Fleet) -> (yes: bool)
        requires
            fleet.wf(),
        ensures
            yes == transport::fleet_ready::<L>(fleet@),
    {
        self.transport.is_ready(fleet)
    }

    /// Read a key from the local cache now.
    pub fn read(&mut self, key: &[u8]) -> (read: CacheRead)
        requires
            old(self).wf(),
        ensures
            final(self).wf(),
            final(self)@.cursor == old(self)@.cursor,
            exists|now_ms: u64|
                read@ == #[trigger] old(self)@.local.answer(key@, now_ms) && final(self)@.local
                    == old(self)@.local.after_read(key@, now_ms),
    {
        let now_ms: u64 = clock::now_ms();
        let read = self.local.read_at(key, now_ms);
        proof {
            assert(read@ == old(self)@.local.answer(key@, now_ms));
        }
        read
    }

    /// [`Cache::read`] with an explicit clock.
    pub fn read_at(&mut self, key: &[u8], now_ms: u64) -> (read: CacheRead)
        requires
            old(self).wf(),
        ensures
            final(self).wf(),
            read@ == old(self)@.local.answer(key@, now_ms),
            final(self)@ == (CacheView {
                local: old(self)@.local.after_read(key@, now_ms),
                ..old(self)@
            }),
    {
        self.local.read_at(key, now_ms)
    }

    /// Refuse a put that the rings could not carry.
    pub fn validate_put(&self, key: &[u8], value: &[u8]) -> (checked: Result<()>)
        requires
            self.wf(),
        ensures
            checked == (match transport::put_refusal::<L>(key@, value@) {
                Some(error) => Err(error),
                None => Ok(()),
            }),
    {
        self.transport.validate_put(key, value)
    }

    /// Refuse a key that a put could not carry.
    pub fn validate_key(&self, key: &[u8]) -> (checked: Result<()>)
        requires
            self.wf(),
        ensures
            checked == (if key@.len() > transport::max_key::<L>() {
                Err(
                    Error::KeyTooLarge {
                        key_len: key@.len() as usize,
                        max: transport::max_key::<L>() as usize,
                    },
                )
            } else {
                Ok(())
            }),
    {
        self.transport.validate_key(key)
    }

    /// Publish a value and hold it locally. Its term starts when the wall clock is
    /// read.
    pub fn put(
        &mut self,
        fleet: &mut Fleet,
        key: &[u8],
        value: &[u8],
        ttl_ms: Option<u128>,
    ) -> (result: Result<CacheRevision>)
        requires
            old(self).wf(),
            old(fleet).wf(),
            transport::put_refusal::<L>(key@, value@) is None ==> transport::fleet_ready::<L>(
                old(fleet)@,
            ),
        ensures
            final(self).wf(),
            final(fleet).wf(),
            exists|now_ms: u64|
                put_settles::<L>(
                    old(self)@,
                    final(self)@,
                    old(fleet)@,
                    final(fleet)@,
                    result,
                    key@,
                    value@,
                    #[trigger] transport::put_expiry(ttl_ms, now_ms),
                ),
    {
        let now_ms: u64 = match ttl_ms {
            Some(_) => clock::now_ms(),
            None => 0,
        };
        self.put_at(fleet, key, value, ttl_ms, now_ms)
    }

    /// [`Cache::put`] with an explicit clock.
    pub fn put_at(
        &mut self,
        fleet: &mut Fleet,
        key: &[u8],
        value: &[u8],
        ttl_ms: Option<u128>,
        now_ms: u64,
    ) -> (result: Result<CacheRevision>)
        requires
            old(self).wf(),
            old(fleet).wf(),
            transport::put_refusal::<L>(key@, value@) is None ==> transport::fleet_ready::<L>(
                old(fleet)@,
            ),
        ensures
            final(self).wf(),
            final(fleet).wf(),
            put_settles::<L>(
                old(self)@,
                final(self)@,
                old(fleet)@,
                final(fleet)@,
                result,
                key@,
                value@,
                transport::put_expiry(ttl_ms, now_ms),
            ),
    {
        match self.transport.publish_put_at(fleet, key, value, ttl_ms, now_ms) {
            Ok(mutation) => {
                let revision = mutation.revision();
                let expires_at_ms = match mutation {
                    CacheMutation::Put { expires_at_ms, .. } => expires_at_ms,
                    _ => None,
                };
                self.local.install_local(
                    key,
                    buf::bytes_from_slice(value),
                    revision,
                    expires_at_ms,
                );
                Ok(revision)
            },
            Err(error) => Err(error),
        }
    }

    /// Publish a delete and forget the key locally.
    pub fn delete(&mut self, fleet: &mut Fleet, key: &[u8]) -> (result: Result<CacheRevision>)
        requires
            old(self).wf(),
            old(fleet).wf(),
            key@.len() <= transport::max_key::<L>() ==> transport::takes_mutation::<L>(
                old(fleet)@,
            ),
        ensures
            final(self).wf(),
            final(fleet).wf(),
            delete_settles::<L>(
                old(self)@,
                final(self)@,
                old(fleet)@,
                final(fleet)@,
                result,
                key@,
            ),
    {
        match self.transport.publish_delete(fleet, key) {
            Ok(mutation) => {
                let revision = mutation.revision();
                self.local.install_missing(key, revision);
                Ok(revision)
            },
            Err(error) => Err(error),
        }
    }

    /// Publish a reset and forget every key locally.
    pub fn reset(&mut self, fleet: &mut Fleet) -> (result: Result<CacheRevision>)
        requires
            old(self).wf(),
            old(fleet).wf(),
            transport::takes_mutation::<L>(old(fleet)@),
        ensures
            final(self).wf(),
            final(fleet).wf(),
            reset_settles::<L>(old(self)@, final(self)@, old(fleet)@, final(fleet)@, result),
    {
        match self.transport.publish_reset(fleet) {
            Ok(mutation) => {
                let revision = mutation.revision();
                let _ = self.local.reset_local(revision);
                Ok(revision)
            },
            Err(error) => Err(error),
        }
    }

    /// Reset the cache rings during an owner-controlled, quiescent boot, and align
    /// this handle's cursor and empty local cache with the new generation.
    pub fn reset_transport(&mut self, fleet: &mut Fleet) -> (done: Result<()>)
        requires
            old(self).wf(),
            old(fleet).wf(),
            transport::fleet_compatible::<L>(old(fleet)@),
        ensures
            final(self).wf(),
            final(fleet).wf(),
            done is Ok,
            final(fleet)@ == transport::rings_reset::<L>(old(fleet)@),
            final(self)@ == (CacheView {
                local: local::LocalView::fresh(old(self)@.local.capacity, 0),
                cursor: transport::mutation_heads::<L>(final(fleet)@),
            }),
    {
        match self.transport.reset_rings(fleet) {
            Ok(_) => {},
            Err(error) => {
                return Err(error);
            },
        }
        self.cursor = self.transport.cursor_at_head(fleet);
        self.local.reset_after_transport_reset();
        Ok(())
    }

    /// Drain every mutation currently visible and apply it to the local cache.
    pub fn poll(&mut self, fleet: &Fleet) -> (poll: CachePoll)
        requires
            old(self).wf(),
            fleet.wf(),
            transport::fleet_compatible::<L>(fleet@),
            old(self)@.cursor.len() == transport::mutation_lanes::<L>(fleet@).len(),
        ensures
            final(self).wf(),
            poll_settles::<L>(old(self)@, final(self)@, fleet@, poll),
    {
        let raw = self.transport.poll(fleet, &mut self.cursor);
        let observed: usize = raw.mutations.len();
        if raw.requires_full_resync() {
            self.local.require_resync();
        }
        let loss = raw.loss;
        let malformed: u64 = raw.malformed;
        let mutations = raw.mutations;
        let ghost views = transport::mutation_views(mutations@);
        let ghost start = self.local@;
        let ghost cursor = self.cursor@;
        let mut applied: usize = 0;
        let mut ignored: usize = 0;
        let mut payload_unavailable: Vec<Bytes> = Vec::new();
        let mut done: usize = 0;
        proof {
            assert(views.take(0) =~= seq![]);
            assert(buf::all_contents(payload_unavailable@) =~= seq![]);
        }
        while done < observed
            invariant
                done <= observed == mutations@.len(),
                views == transport::mutation_views(mutations@),
                self.wf(),
                fleet.wf(),
                self.cursor@ == cursor,
                applied + ignored <= done,
                ({
                    let so_far = drained::<L>(start, fleet@, views.take(done as int));
                    &&& self.local@ == so_far.local
                    &&& applied == so_far.applied
                    &&& ignored == so_far.ignored
                    &&& buf::all_contents(payload_unavailable@) == so_far.unavailable
                }),
            decreases observed - done,
        {
            let ghost unavailable = payload_unavailable@;
            let mutation = &mutations[done];
            proof {
                assert(views.take(done + 1).drop_last() =~= views.take(done as int));
                assert(views.take(done + 1).last() == mutation@);
            }
            done = done + 1;
            match self.local.apply(&self.transport, fleet, mutation) {
                ApplyOutcome::Applied => {
                    applied = applied + 1;
                },
                ApplyOutcome::Ignored => {
                    ignored = ignored + 1;
                },
                ApplyOutcome::PayloadUnavailable { key } => {
                    payload_unavailable.push(key);
                    proof {
                        assert(buf::all_contents(payload_unavailable@) =~= buf::all_contents(
                            unavailable,
                        ).push(buf::bytes_contents(key)));
                    }
                },
            }
        }
        proof {
            assert(views.take(done as int) =~= views);
        }
        CachePoll {
            observed,
            applied,
            ignored,
            payload_unavailable,
            loss,
            malformed,
            resync_required: !self.local.is_coherent(),
        }
    }

    /// Discard uncertain local state and resume after the current mutation heads.
    ///
    /// For callers that can satisfy ordinary misses from an authoritative source.
    /// Mutations whose revisions were allocated before this boundary are ignored,
    /// even if a delayed writer commits them after it.
    pub fn recover_from_backing(&mut self, fleet: &Fleet)
        requires
            old(self).wf(),
            fleet.wf(),
            transport::fleet_compatible::<L>(fleet@),
        ensures
            final(self).wf(),
            final(self)@ == (CacheView {
                local: local::LocalView::fresh(
                    old(self)@.local.capacity,
                    fleet@.family(L::MUTATION_RING_KIND, layout::mutation_spec::<L>()).version,
                ),
                cursor: transport::mutation_heads::<L>(fleet@),
            }),
    {
        self.cursor = self.transport.cursor_at_head(fleet);
        let revision_floor: u64 = self.transport.current_revision_sequence(fleet);
        self.local.recover_from_backing(revision_floor);
    }

    /// The local cache.
    pub fn local(&self) -> (local: &LocalCache)
        ensures
            local@ == self@.local,
    {
        &self.local
    }

    /// The transport.
    pub fn transport(&self) -> (transport: &CacheTransport<L>)
        ensures
            self.wf() ==> transport::layout_sound::<L>(),
    {
        &self.transport
    }
}

/// What a poll answers, and what it makes of the cache: the mutations since the last
/// poll are applied in revision order, on a cache that is distrusted first where some
/// were missed.
pub open spec fn poll_settles<L: CacheLayout>(
    before: CacheView,
    after: CacheView,
    fleet: FleetView,
    poll: CachePoll,
) -> bool {
    let lanes = transport::mutation_lanes::<L>(fleet);
    let frames = model::lane_frames(lanes, before.cursor);
    let mutations = transport::mutations_in(frames);
    let start = poll_start(before.local, poll.loss, poll.malformed);
    let done = drained::<L>(start, fleet, mutations);
    &&& poll.observed == mutations.len()
    &&& poll.applied == done.applied
    &&& poll.ignored == done.ignored
    &&& buf::all_contents(poll.payload_unavailable@) == done.unavailable
    &&& poll.loss == model::lane_loss(lanes, before.cursor)
    &&& poll.malformed == transport::malformed_in(frames)
    &&& poll.resync_required == !done.local.coherent
    &&& after == (CacheView {
        local: done.local,
        cursor: model::lane_next(lanes, before.cursor),
    })
}

/// What a put answers, and what it leaves in the fleet and in the local cache.
pub open spec fn put_settles<L: CacheLayout>(
    before: CacheView,
    after: CacheView,
    fleet_before: FleetView,
    fleet_after: FleetView,
    result: Result<CacheRevision>,
    key: Seq<u8>,
    value: Seq<u8>,
    expires_at_ms: Option<u64>,
) -> bool {
    match transport::put_refusal::<L>(key, value) {
        Some(error) => {
            &&& after == before
            &&& fleet_after == fleet_before
            &&& result == Err::<CacheRevision, Error>(error)
        },
        None => {
            let revision = transport::next_revision::<L>(fleet_before);
            &&& result == Ok::<CacheRevision, Error>(revision)
            &&& fleet_after == transport::after_put::<L>(fleet_before, key, value, expires_at_ms)
            &&& after == (CacheView {
                local: before.local.settled_key(key, revision, Some((value, expires_at_ms))),
                ..before
            })
        },
    }
}

/// What a delete answers, and what it leaves in the fleet and in the local cache.
pub open spec fn delete_settles<L: CacheLayout>(
    before: CacheView,
    after: CacheView,
    fleet_before: FleetView,
    fleet_after: FleetView,
    result: Result<CacheRevision>,
    key: Seq<u8>,
) -> bool {
    if key.len() > transport::max_key::<L>() {
        &&& after == before
        &&& fleet_after == fleet_before
        &&& result == Err::<CacheRevision, Error>(
            Error::KeyTooLarge {
                key_len: key.len() as usize,
                max: transport::max_key::<L>() as usize,
            },
        )
    } else {
        let revision = transport::next_revision::<L>(fleet_before);
        &&& result == Ok::<CacheRevision, Error>(revision)
        &&& fleet_after == transport::mutation_published::<L>(
            fleet_before,
            protocol::OP_DELETE,
            protocol::delete_bytes(key),
        )
        &&& after == (CacheView {
            local: before.local.settled_key(key, revision, None),
            ..before
        })
    }
}

/// What a reset answers, and what it leaves in the fleet and in the local cache.
pub open spec fn reset_settles<L: CacheLayout>(
    before: CacheView,
    after: CacheView,
    fleet_before: FleetView,
    fleet_after: FleetView,
    result: Result<CacheRevision>,
) -> bool {
    let revision = transport::next_revision::<L>(fleet_before);
    &&& result == Ok::<CacheRevision, Error>(revision)
    &&& fleet_after == transport::mutation_published::<L>(
        fleet_before,
        protocol::OP_RESET,
        protocol::reset_bytes(),
    )
    &&& after == (CacheView { local: before.local.after_reset(revision), ..before })
}

} // verus!
