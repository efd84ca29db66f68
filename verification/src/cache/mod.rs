//! Fleet-shared binary cache over one ring.
//!
//! This is the raw primitive layer: keys and values are bytes, the shared truth
//! is the fleet ring, and higher layers decide how bytes become application
//! values.
//!
//! Each mutation is one frame. Reads walk the ring backwards and stop at the
//! newest frame that decides about the key. A delete shadows older puts. A reset
//! shadows everything older under its prefix. An expired put is a miss and
//! shadows older puts as well.

use bytes::Bytes;
use vstd::prelude::*;

pub mod frame;
pub mod laws;

pub use frame::CACHE_PAYLOAD_MAX;

use crate::buf;
use crate::clock;
use crate::error::{Error, Result};
use crate::fleet;
use crate::fleet::model::FleetView;
use crate::fleet::Fleet;
use crate::id::NetId64;
use crate::ring;
use crate::ring::cursor::source;
use crate::ring::cursor::RingFrameSource;
use crate::ring::{FrameView, RingSpec, RingTopology};
use crate::OrbitTyped;
use frame::MutationView;

verus! {

/// Ring kind of the raw cache.
pub const CACHE_RING_KIND: u8 = 200;

/// Slots retained by the raw cache ring.
pub const CACHE_RING_CAPACITY: usize = 1024;

/// Marker of the raw cache ring.
#[derive(Clone, Debug)]
pub struct OrbitCacheRecord;

impl OrbitTyped for OrbitCacheRecord {
    const KIND: u8 = CACHE_RING_KIND;

    const CAPACITY: usize = CACHE_RING_CAPACITY;

    const PAYLOAD_CAPACITY: usize = frame::CACHE_PAYLOAD_MAX;

    const TOPOLOGY: RingTopology = RingTopology::Shared;
}

/// The layout of the raw cache ring.
pub open spec fn cache_spec() -> RingSpec {
    RingSpec {
        capacity: CACHE_RING_CAPACITY,
        payload_capacity: frame::CACHE_PAYLOAD_MAX,
        topology: RingTopology::Shared,
    }
}

/// A fleet that was just joined can take cache entries.
pub proof fn law_a_new_fleet_takes_cache_entries(name: Seq<char>, size: u8, node: u16)
    requires
        node < size,
    ensures
        fleet::fresh_fleet(name, size, node).has_room(CACHE_RING_KIND, cache_spec(), 1),
{
    reveal_with_fuel(vstd::arithmetic::power2::is_pow2, 11);
}

/// Decoded cache entry.
#[derive(Clone, Debug, PartialEq, Eq)]
pub struct OrbitCacheEntry {
    pub value: Bytes,
    pub epoch: u64,
    pub expires_at_ms: Option<u64>,
}

/// Honest read result: either the newest deciding frame is a live value, or the
/// key is currently absent. `epoch` is the ring counter of the deciding frame,
/// where there is one.
#[derive(Clone, Debug, PartialEq, Eq)]
pub enum OrbitCacheRead {
    Hit(OrbitCacheEntry),
    Miss { epoch: Option<u64> },
}

/// A read result, as values.
pub enum ReadView {
    Hit { value: Seq<u8>, epoch: u64, expires_at_ms: Option<u64> },
    Miss { epoch: Option<u64> },
}

impl View for OrbitCacheRead {
    type V = ReadView;

    open spec fn view(&self) -> ReadView {
        match self {
            OrbitCacheRead::Hit(entry) => ReadView::Hit {
                value: buf::bytes_contents(entry.value),
                epoch: entry.epoch,
                expires_at_ms: entry.expires_at_ms,
            },
            OrbitCacheRead::Miss { epoch } => ReadView::Miss { epoch: *epoch },
        }
    }
}

impl OrbitCacheRead {
    /// The value, if the read was a hit.
    pub fn into_value(self) -> (value: Option<Vec<u8>>)
        ensures
            match self@ {
                ReadView::Hit { value: held, .. } => value is Some && value->Some_0@ == held,
                ReadView::Miss { .. } => value is None,
            },
    {
        match self {
            OrbitCacheRead::Hit(entry) => {
                let data = buf::bytes_as_slice(&entry.value);
                let value = buf::copy_range(data, 0, data.len());
                proof {
                    assert(value@ =~= data@);
                }
                Some(value)
            },
            OrbitCacheRead::Miss { .. } => None,
        }
    }

    /// The counter of the deciding frame.
    pub fn epoch(&self) -> (epoch: Option<u64>)
        ensures
            epoch == (match self@ {
                ReadView::Hit { epoch, .. } => Some(epoch),
                ReadView::Miss { epoch } => epoch,
            }),
    {
        match self {
            OrbitCacheRead::Hit(entry) => Some(entry.epoch),
            OrbitCacheRead::Miss { epoch } => *epoch,
        }
    }
}

/// What a mutation with this epoch decides about `key` at `now`, if anything.
///
/// A reset decides about every key under its prefix. A put and a delete decide
/// about their own key. A put whose time has come is a miss.
pub open spec fn decision(mutation: MutationView, epoch: u64, key: Seq<u8>, now: u64) -> Option<
    ReadView,
> {
    if mutation.op == frame::OP_RESET && mutation.key.is_prefix_of(key) {
        Some(ReadView::Miss { epoch: Some(epoch) })
    } else if mutation.key != key {
        None
    } else if mutation.op == frame::OP_PUT && (mutation.expires_at_ms == 0 || mutation.expires_at_ms
        > now) {
        Some(
            ReadView::Hit {
                value: mutation.value,
                epoch,
                expires_at_ms: if mutation.expires_at_ms == 0 {
                    None
                } else {
                    Some(mutation.expires_at_ms)
                },
            },
        )
    } else {
        Some(ReadView::Miss { epoch: Some(epoch) })
    }
}

/// What a slot decides about `key` at `now`. Slots that are empty or hold no
/// mutation decide nothing.
pub open spec fn slot_decision(slot: Option<FrameView>, key: Seq<u8>, now: u64) -> Option<ReadView> {
    match slot {
        Some(frame) => match frame::decoded(frame.payload) {
            Some(mutation) => decision(mutation, frame.id.spec_counter(), key, now),
            None => None,
        },
        None => None,
    }
}

/// The newest decision about `key` in a window of slots, oldest first.
pub open spec fn lookup(window: Seq<Option<FrameView>>, key: Seq<u8>, now: u64) -> ReadView
    decreases window.len(),
{
    if window.len() == 0 {
        ReadView::Miss { epoch: None }
    } else {
        match slot_decision(window.last(), key, now) {
            Some(read) => read,
            None => lookup(window.drop_last(), key, now),
        }
    }
}

/// Find the newest decision about `key` in the retained window of `source`.
pub fn find_entry<S: RingFrameSource>(source: &S, key: &[u8], now_ms: u64) -> (read: OrbitCacheRead)
    requires
        source.source_wf(),
    ensures
        read@ == lookup(source::window(source), key@, now_ms),
{
    let head: u64 = source.head();
    let capacity: u64 = source.capacity() as u64;
    let floor: u64 = head.saturating_sub(capacity);
    let ghost window = source::window(source);
    let mut counter: u64 = head;
    proof {
        assert(window.take(window.len() as int) =~= window);
    }
    while counter > floor
        invariant
            source.source_wf(),
            head == source.source_head(),
            floor <= counter <= head,
            floor == source::window_floor(source.source_head(), source.source_capacity()),
            window == source::window(source),
            lookup(window, key@, now_ms) == lookup(window.take(counter - floor), key@, now_ms),
        decreases counter,
    {
        counter = counter - 1;
        let ghost shorter = window.take(counter - floor);
        let slot = source.read_at(counter);
        proof {
            let longer = window.take(counter + 1 - floor);
            assert(longer.drop_last() =~= shorter);
            assert(longer.last() == source.source_read_at(counter));
        }
        match slot {
            Some(found) => {
                match frame::decode_frame(&found.payload) {
                    Some(decoded) => {
                        let data = buf::bytes_as_slice(&found.payload);
                        let held = buf::copy_range(data, frame::HEADER_LEN, decoded.key_end);
                        let epoch: u64 = found.id.counter();
                        if decoded.op == frame::OP_RESET && buf::starts_with(key, held.as_slice()) {
                            return OrbitCacheRead::Miss { epoch: Some(epoch) };
                        }
                        if buf::same_bytes(held.as_slice(), key) {
                            if decoded.op == frame::OP_PUT && (decoded.expires_at_ms == 0
                                || decoded.expires_at_ms > now_ms) {
                                let expires_at_ms: Option<u64> = if decoded.expires_at_ms == 0 {
                                    None
                                } else {
                                    Some(decoded.expires_at_ms)
                                };
                                return OrbitCacheRead::Hit(
                                    OrbitCacheEntry {
                                        value: buf::bytes_slice(
                                            &found.payload,
                                            decoded.key_end,
                                            decoded.value_end,
                                        ),
                                        epoch,
                                        expires_at_ms,
                                    },
                                );
                            }
                            return OrbitCacheRead::Miss { epoch: Some(epoch) };
                        }
                    },
                    None => {},
                }
            },
            None => {},
        }
    }
    OrbitCacheRead::Miss { epoch: None }
}

/// When a put made at `now_ms` runs out: never without a term, else after at
/// least one millisecond.
pub open spec fn expiry(ttl_ms: Option<u128>, now_ms: u64) -> u64 {
    match ttl_ms {
        Some(ttl_ms) => now_ms.saturating_add(
            if ttl_ms == 0 {
                1
            } else {
                clock::clamped(ttl_ms)
            },
        ),
        None => 0,
    }
}

fn expiry_at(ttl_ms: Option<u128>, now_ms: u64) -> (expires_at_ms: u64)
    ensures
        expires_at_ms == expiry(ttl_ms, now_ms),
{
    match ttl_ms {
        Some(ttl_ms) => {
            let term: u64 = if ttl_ms == 0 {
                1
            } else {
                clock::clamp_ms(ttl_ms)
            };
            now_ms.saturating_add(term)
        },
        None => 0,
    }
}

/// What the publication of a mutation answers and leaves behind.
pub open spec fn mutation_answers(
    before: FleetView,
    after: FleetView,
    result: Result<NetId64>,
    mutation: MutationView,
) -> bool {
    if frame::frame_fits(mutation.key, mutation.value) {
        &&& result == Ok::<NetId64, Error>(
            NetId64::minted(
                CACHE_RING_KIND,
                before.node,
                before.home(CACHE_RING_KIND, cache_spec()).head(),
            ),
        )
        &&& after == before.published(
            CACHE_RING_KIND,
            cache_spec(),
            mutation.op,
            mutation.expires_at_ms,
            frame::encoded(mutation),
        )
    } else {
        &&& result == Err::<NetId64, Error>(frame::frame_error(mutation.key, mutation.value))
        &&& after == before
    }
}

/// Fleet-shared binary cache. It carries its key prefix; the entries live in the
/// rings of the fleet that each operation is given.
#[derive(Clone, Debug)]
pub struct OrbitCache {
    prefix: String,
}

impl OrbitCache {
    pub closed spec fn spec_prefix(&self) -> Seq<char> {
        self.prefix@
    }

    /// The bytes under which a key is stored.
    pub open spec fn scoped(&self, key: Seq<char>) -> Seq<u8> {
        vstd::utf8::encode_utf8(self.spec_prefix() + key)
    }

    /// What a put made at `now_ms` asks for.
    pub open spec fn put_mutation(
        &self,
        key: Seq<char>,
        value: Seq<u8>,
        ttl_ms: Option<u128>,
        now_ms: u64,
    ) -> MutationView {
        MutationView {
            op: frame::OP_PUT,
            key: self.scoped(key),
            value,
            expires_at_ms: expiry(ttl_ms, now_ms),
        }
    }

    /// What a delete asks for.
    pub open spec fn delete_mutation(&self, key: Seq<char>) -> MutationView {
        MutationView {
            op: frame::OP_DELETE,
            key: self.scoped(key),
            value: seq![],
            expires_at_ms: 0,
        }
    }

    /// What a reset asks for.
    pub open spec fn reset_mutation(&self) -> MutationView {
        MutationView {
            op: frame::OP_RESET,
            key: vstd::utf8::encode_utf8(self.spec_prefix()),
            value: seq![],
            expires_at_ms: 0,
        }
    }

    /// What a read of `key` gives in a fleet at `now_ms`.
    pub open spec fn answer(&self, fleet: FleetView, key: Seq<char>, now_ms: u64) -> ReadView {
        lookup(
            fleet.home(CACHE_RING_KIND, cache_spec()).retained(),
            self.scoped(key),
            now_ms,
        )
    }

    /// Build a cache without a key prefix.
    pub fn new() -> (cache: OrbitCache)
        ensures
            cache.spec_prefix() == Seq::<char>::empty(),
    {
        OrbitCache { prefix: String::new() }
    }

    /// Build a cache that puts `prefix` in front of every key. Prefixes are byte
    /// identity, not display labels; use them for namespaces.
    pub fn with_prefix(prefix: &str) -> (cache: OrbitCache)
        ensures
            cache.spec_prefix() == prefix@,
    {
        OrbitCache { prefix: prefix.to_owned() }
    }

    /// Whether a fleet can take a mutation: its cache ring has the layout this
    /// cache uses, and a counter is left.
    pub fn is_ready(&self, fleet: &Fleet) -> (yes: bool)
        requires
            fleet.wf(),
        ensures
            yes == fleet@.has_room(CACHE_RING_KIND, cache_spec(), 1),
    {
        fleet.has_room::<OrbitCacheRecord>(1)
    }

    pub fn prefix(&self) -> (prefix: &str)
        ensures
            prefix@ == self.spec_prefix(),
    {
        self.prefix.as_str()
    }

    fn scoped_key(&self, key: &str) -> (scoped: String)
        ensures
            scoped@ == self.spec_prefix() + key@,
    {
        let mut scoped = self.prefix.clone();
        scoped.append(key);
        scoped
    }

    fn publish(
        &self,
        fleet: &mut Fleet,
        op: u8,
        key: &[u8],
        value: &[u8],
        expires_at_ms: u64,
    ) -> (result: Result<NetId64>)
        requires
            old(fleet).wf(),
            frame::frame_fits(key@, value@) ==> old(fleet)@.has_room(
                CACHE_RING_KIND,
                cache_spec(),
                1,
            ),
        ensures
            final(fleet).wf(),
            mutation_answers(
                old(fleet)@,
                final(fleet)@,
                result,
                (MutationView { op, key: key@, value: value@, expires_at_ms }),
            ),
    {
        match frame::encode_frame(op, key, value, expires_at_ms) {
            Ok(payload) => Ok(fleet.publish::<OrbitCacheRecord>(op, expires_at_ms, payload)),
            Err(error) => Err(error),
        }
    }

    /// Store `value` under `key`. No term means forever, until a later mutation
    /// shadows it. The term starts when the wall clock is read.
    pub fn put(&self, fleet: &mut Fleet, key: &str, value: &[u8], ttl_ms: Option<u128>) -> (result:
        Result<NetId64>)
        requires
            old(fleet).wf(),
            frame::frame_fits(self.scoped(key@), value@) ==> old(fleet)@.has_room(
                CACHE_RING_KIND,
                cache_spec(),
                1,
            ),
        ensures
            final(fleet).wf(),
            exists|now_ms: u64|
                mutation_answers(
                    old(fleet)@,
                    final(fleet)@,
                    result,
                    #[trigger] self.put_mutation(key@, value@, ttl_ms, now_ms),
                ),
    {
        let now_ms: u64 = match ttl_ms {
            Some(_) => clock::now_ms(),
            None => 0,
        };
        self.put_at(fleet, key, value, ttl_ms, now_ms)
    }

    /// [`OrbitCache::put`] with an explicit clock.
    pub fn put_at(
        &self,
        fleet: &mut Fleet,
        key: &str,
        value: &[u8],
        ttl_ms: Option<u128>,
        now_ms: u64,
    ) -> (result: Result<NetId64>)
        requires
            old(fleet).wf(),
            frame::frame_fits(self.scoped(key@), value@) ==> old(fleet)@.has_room(
                CACHE_RING_KIND,
                cache_spec(),
                1,
            ),
        ensures
            final(fleet).wf(),
            mutation_answers(
                old(fleet)@,
                final(fleet)@,
                result,
                self.put_mutation(key@, value@, ttl_ms, now_ms),
            ),
    {
        let expires_at_ms: u64 = expiry_at(ttl_ms, now_ms);
        let scoped = self.scoped_key(key);
        self.publish(fleet, frame::OP_PUT, scoped.as_str().as_bytes(), value, expires_at_ms)
    }

    /// Delete `key` by publishing a tombstone frame.
    pub fn delete(&self, fleet: &mut Fleet, key: &str) -> (result: Result<NetId64>)
        requires
            old(fleet).wf(),
            frame::frame_fits(self.scoped(key@), seq![]) ==> old(fleet)@.has_room(
                CACHE_RING_KIND,
                cache_spec(),
                1,
            ),
        ensures
            final(fleet).wf(),
            mutation_answers(
                old(fleet)@,
                final(fleet)@,
                result,
                self.delete_mutation(key@),
            ),
    {
        let scoped = self.scoped_key(key);
        let nothing: Vec<u8> = Vec::new();
        proof {
            assert(nothing@ =~= seq![]);
        }
        self.publish(fleet, frame::OP_DELETE, scoped.as_str().as_bytes(), nothing.as_slice(), 0)
    }

    /// Reset the cache prefix by publishing a namespace tombstone. Existing
    /// frames remain in the ring, but reads treat older entries under the prefix
    /// as absent.
    pub fn reset(&self, fleet: &mut Fleet) -> (result: Result<NetId64>)
        requires
            old(fleet).wf(),
            frame::frame_fits(self.reset_mutation().key, seq![]) ==> old(fleet)@.has_room(
                CACHE_RING_KIND,
                cache_spec(),
                1,
            ),
        ensures
            final(fleet).wf(),
            mutation_answers(
                old(fleet)@,
                final(fleet)@,
                result,
                self.reset_mutation(),
            ),
    {
        let nothing: Vec<u8> = Vec::new();
        proof {
            assert(nothing@ =~= seq![]);
        }
        self.publish(fleet, frame::OP_RESET, self.prefix.as_str().as_bytes(), nothing.as_slice(), 0)
    }

    /// Read the current value bytes, if present and unexpired when the wall clock
    /// is read.
    pub fn get(&self, fleet: &Fleet, key: &str) -> (value: Option<Vec<u8>>)
        requires
            fleet.wf(),
            fleet@.compatible(CACHE_RING_KIND, cache_spec()),
        ensures
            exists|now_ms: u64|
                match #[trigger] self.answer(fleet@, key@, now_ms) {
                    ReadView::Hit { value: held, .. } => value is Some && value->Some_0@ == held,
                    ReadView::Miss { .. } => value is None,
                },
    {
        self.get_entry(fleet, key).into_value()
    }

    /// Read with epoch metadata, at the time the wall clock shows.
    pub fn get_entry(&self, fleet: &Fleet, key: &str) -> (read: OrbitCacheRead)
        requires
            fleet.wf(),
            fleet@.compatible(CACHE_RING_KIND, cache_spec()),
        ensures
            exists|now_ms: u64|
                read@ == #[trigger] self.answer(fleet@, key@, now_ms),
    {
        let now_ms: u64 = clock::now_ms();
        self.get_entry_at(fleet, key, now_ms)
    }

    /// [`OrbitCache::get_entry`] with an explicit clock.
    pub fn get_entry_at(&self, fleet: &Fleet, key: &str, now_ms: u64) -> (read: OrbitCacheRead)
        requires
            fleet.wf(),
            fleet@.compatible(CACHE_RING_KIND, cache_spec()),
        ensures
            read@ == self.answer(fleet@, key@, now_ms),
    {
        proof {
            fleet.lemma_consistent();
            crate::fleet::model::lemma_family_consistent(fleet@, CACHE_RING_KIND, cache_spec());
        }
        let scoped = self.scoped_key(key);
        match fleet.lane::<OrbitCacheRecord>() {
            Some(lane) => {
                proof {
                    ring::lemma_window_of_ring(lane);
                }
                find_entry(lane, scoped.as_str().as_bytes(), now_ms)
            },
            None => OrbitCacheRead::Miss { epoch: None },
        }
    }
}

/// The newest mutation wins: what was just published decides about every key it
/// speaks of, whatever the cache held before.
pub proof fn law_the_newest_mutation_wins(
    window: Seq<Option<FrameView>>,
    frame: FrameView,
    mutation: MutationView,
    key: Seq<u8>,
    now: u64,
)
    requires
        frame::frame_fits(mutation.key, mutation.value),
        frame.payload == frame::encoded(mutation),
    ensures
        lookup(window.push(Some(frame)), key, now) == (match decision(
            mutation,
            frame.id.spec_counter(),
            key,
            now,
        ) {
            Some(read) => read,
            None => lookup(window, key, now),
        }),
{
    frame::law_cache_frames_round_trip(mutation);
    assert(window.push(Some(frame)).drop_last() =~= window);
    assert(window.push(Some(frame)).last() == Some(frame));
}

/// What a get gives back of a put: the value, until its term ends, and a miss from
/// then on. A later put of the same key replaces it.
pub proof fn law_get_returns_the_put(
    window: Seq<Option<FrameView>>,
    frame: FrameView,
    key: Seq<u8>,
    value: Seq<u8>,
    ttl_ms: Option<u128>,
    put_at: u64,
    now: u64,
)
    requires
        frame::frame_fits(key, value),
        frame.payload == frame::encoded(
            MutationView {
                op: frame::OP_PUT,
                key,
                value,
                expires_at_ms: expiry(ttl_ms, put_at),
            },
        ),
    ensures
        ttl_ms is None ==> lookup(window.push(Some(frame)), key, now) == (ReadView::Hit {
            value,
            epoch: frame.id.spec_counter(),
            expires_at_ms: None,
        }),
        ttl_ms is Some && now < expiry(ttl_ms, put_at) ==> lookup(
            window.push(Some(frame)),
            key,
            now,
        ) == (ReadView::Hit {
            value,
            epoch: frame.id.spec_counter(),
            expires_at_ms: Some(expiry(ttl_ms, put_at)),
        }),
        ttl_ms is Some && now >= expiry(ttl_ms, put_at) ==> lookup(
            window.push(Some(frame)),
            key,
            now,
        ) == (ReadView::Miss { epoch: Some(frame.id.spec_counter()) }),
{
    let mutation = MutationView {
        op: frame::OP_PUT,
        key,
        value,
        expires_at_ms: expiry(ttl_ms, put_at),
    };
    law_the_newest_mutation_wins(window, frame, mutation, key, now);
    assert(!(frame::OP_PUT == frame::OP_RESET));
}

/// A delete shadows everything older under its key, and a reset everything older
/// under its prefix.
pub proof fn law_tombstones_shadow_older_values(
    window: Seq<Option<FrameView>>,
    frame: FrameView,
    op: u8,
    scope: Seq<u8>,
    key: Seq<u8>,
    now: u64,
)
    requires
        frame::frame_fits(scope, seq![]),
        frame.payload == frame::encoded(
            MutationView { op, key: scope, value: seq![], expires_at_ms: 0 },
        ),
        (op == frame::OP_DELETE && scope == key) || (op == frame::OP_RESET && scope.is_prefix_of(
            key,
        )),
    ensures
        lookup(window.push(Some(frame)), key, now) == (ReadView::Miss {
            epoch: Some(frame.id.spec_counter()),
        }),
{
    law_the_newest_mutation_wins(
        window,
        frame,
        MutationView { op, key: scope, value: seq![], expires_at_ms: 0 },
        key,
        now,
    );
}

/// Keys do not interfere: a put or a delete of one key leaves the answer for every
/// other key as it was, and a reset of a prefix leaves keys outside it alone. So
/// caches with prefixes of which none begins another are isolated.
pub proof fn law_other_keys_are_untouched(
    window: Seq<Option<FrameView>>,
    frame: FrameView,
    mutation: MutationView,
    key: Seq<u8>,
    now: u64,
)
    requires
        frame::frame_fits(mutation.key, mutation.value),
        frame.payload == frame::encoded(mutation),
        mutation.key != key,
        mutation.op == frame::OP_RESET ==> !mutation.key.is_prefix_of(key),
    ensures
        lookup(window.push(Some(frame)), key, now) == lookup(window, key, now),
{
    law_the_newest_mutation_wins(window, frame, mutation, key, now);
}

/// Publishing into the cache ring extends its retained window at the newest end;
/// once the ring is full, the oldest frame leaves it.
pub proof fn law_published_mutations_are_retained(
    before: FleetView,
    op: u8,
    ver: u64,
    payload: Seq<u8>,
)
    requires
        before.consistent(),
        before.compatible(CACHE_RING_KIND, cache_spec()),
    ensures
        ({
            let old_ring = before.home(CACHE_RING_KIND, cache_spec());
            let new_ring = before.published(
                CACHE_RING_KIND,
                cache_spec(),
                op,
                ver,
                payload,
            ).home(CACHE_RING_KIND, cache_spec());
            let frame = before.next_frame(CACHE_RING_KIND, cache_spec(), op, ver, payload);
            new_ring.retained() == (if old_ring.head() < CACHE_RING_CAPACITY {
                old_ring.retained().push(Some(frame))
            } else {
                old_ring.retained().skip(1).push(Some(frame))
            })
        }),
{
    crate::fleet::model::lemma_family_consistent(before, CACHE_RING_KIND, cache_spec());
    let old_ring = before.home(CACHE_RING_KIND, cache_spec());
    let new_ring = before.published(CACHE_RING_KIND, cache_spec(), op, ver, payload).home(
        CACHE_RING_KIND,
        cache_spec(),
    );
    let frame = before.next_frame(CACHE_RING_KIND, cache_spec(), op, ver, payload);
    assert(new_ring == old_ring.appended(before.node, op, ver, payload));
    if old_ring.head() < CACHE_RING_CAPACITY {
        assert(new_ring.retained() =~= old_ring.retained().push(Some(frame)));
    } else {
        assert(new_ring.retained() =~= old_ring.retained().skip(1).push(Some(frame)));
    }
}

/// A put is read back: after a put that was taken, the cache answers with its
/// value until the term ends, whatever it held before.
pub proof fn law_a_put_is_read_back(
    before: FleetView,
    after: FleetView,
    result: Result<NetId64>,
    key: Seq<u8>,
    value: Seq<u8>,
    ttl_ms: Option<u128>,
    put_at: u64,
    now: u64,
)
    requires
        before.consistent(),
        before.compatible(CACHE_RING_KIND, cache_spec()),
        frame::frame_fits(key, value),
        mutation_answers(
            before,
            after,
            result,
            MutationView {
                op: frame::OP_PUT,
                key,
                value,
                expires_at_ms: expiry(ttl_ms, put_at),
            },
        ),
        ttl_ms is None || now < expiry(ttl_ms, put_at),
    ensures
        result is Ok,
        lookup(after.home(CACHE_RING_KIND, cache_spec()).retained(), key, now) == (ReadView::Hit {
            value,
            epoch: result->Ok_0.spec_counter(),
            expires_at_ms: if ttl_ms is None {
                None
            } else {
                Some(expiry(ttl_ms, put_at))
            },
        }),
{
    let mutation = MutationView {
        op: frame::OP_PUT,
        key,
        value,
        expires_at_ms: expiry(ttl_ms, put_at),
    };
    let payload = frame::encoded(mutation);
    let ring = before.home(CACHE_RING_KIND, cache_spec());
    crate::fleet::model::lemma_family_consistent(before, CACHE_RING_KIND, cache_spec());
    law_published_mutations_are_retained(
        before,
        mutation.op,
        mutation.expires_at_ms,
        payload,
    );
    let window = if ring.head() < CACHE_RING_CAPACITY {
        ring.retained()
    } else {
        ring.retained().skip(1)
    };
    let written = before.next_frame(
        CACHE_RING_KIND,
        cache_spec(),
        mutation.op,
        mutation.expires_at_ms,
        payload,
    );
    law_get_returns_the_put(window, written, key, value, ttl_ms, put_at, now);
}

} // verus!
