//! The fleet-coherent local cache.

use bytes::Bytes;
use orbit::fleet_cache::local::ApplyOutcome;
use orbit::fleet_cache::protocol::{decode_mutation, encode_delete, encode_put, encode_reset};
use orbit::fleet_cache::transport::collect_mutations;
use orbit::fleet_cache::{
    Cache, CacheLayout, CacheMutation, CachePoll, CacheRead, CacheRevision, CacheTransport,
    DefaultCacheLayout, Error, LocalCache, PayloadRef, CACHE_MUTATION_RING_KIND,
    CACHE_PAYLOAD_RING_KIND, DEFAULT_L1_CAPACITY,
};
use orbit::{Fleet, Frame, IoError, IoErrorKind, NetId64, NodeId, RingTopology};

struct TinyLayout;

impl CacheLayout for TinyLayout {
    const MUTATION_RING_KIND: u8 = 40;
    const MUTATION_RING_CAPACITY: usize = 8;
    const MUTATION_RING_PAYLOAD: usize = 128;
    const MUTATION_RING_TOPOLOGY: RingTopology = RingTopology::PerNode;
    const PAYLOAD_RING_KIND: u8 = 41;
    const PAYLOAD_RING_CAPACITY: usize = 4;
    const PAYLOAD_RING_PAYLOAD: usize = 4;
    const PAYLOAD_RING_TOPOLOGY: RingTopology = RingTopology::PerNode;
}

struct OneKindLayout;

impl CacheLayout for OneKindLayout {
    const MUTATION_RING_KIND: u8 = 40;
    const MUTATION_RING_CAPACITY: usize = 8;
    const MUTATION_RING_PAYLOAD: usize = 128;
    const MUTATION_RING_TOPOLOGY: RingTopology = RingTopology::PerNode;
    const PAYLOAD_RING_KIND: u8 = 40;
    const PAYLOAD_RING_CAPACITY: usize = 4;
    const PAYLOAD_RING_PAYLOAD: usize = 4;
    const PAYLOAD_RING_TOPOLOGY: RingTopology = RingTopology::PerNode;
}

struct ShortMutationLayout;

impl CacheLayout for ShortMutationLayout {
    const MUTATION_RING_KIND: u8 = 40;
    const MUTATION_RING_CAPACITY: usize = 8;
    const MUTATION_RING_PAYLOAD: usize = 38;
    const MUTATION_RING_TOPOLOGY: RingTopology = RingTopology::PerNode;
    const PAYLOAD_RING_KIND: u8 = 41;
    const PAYLOAD_RING_CAPACITY: usize = 4;
    const PAYLOAD_RING_PAYLOAD: usize = 4;
    const PAYLOAD_RING_TOPOLOGY: RingTopology = RingTopology::PerNode;
}

struct OddRingLayout;

impl CacheLayout for OddRingLayout {
    const MUTATION_RING_KIND: u8 = 40;
    const MUTATION_RING_CAPACITY: usize = 7;
    const MUTATION_RING_PAYLOAD: usize = 128;
    const MUTATION_RING_TOPOLOGY: RingTopology = RingTopology::PerNode;
    const PAYLOAD_RING_KIND: u8 = 41;
    const PAYLOAD_RING_CAPACITY: usize = 4;
    const PAYLOAD_RING_PAYLOAD: usize = 4;
    const PAYLOAD_RING_TOPOLOGY: RingTopology = RingTopology::PerNode;
}

struct EmptySlotLayout;

impl CacheLayout for EmptySlotLayout {
    const MUTATION_RING_KIND: u8 = 40;
    const MUTATION_RING_CAPACITY: usize = 8;
    const MUTATION_RING_PAYLOAD: usize = 128;
    const MUTATION_RING_TOPOLOGY: RingTopology = RingTopology::PerNode;
    const PAYLOAD_RING_KIND: u8 = 41;
    const PAYLOAD_RING_CAPACITY: usize = 4;
    const PAYLOAD_RING_PAYLOAD: usize = 0;
    const PAYLOAD_RING_TOPOLOGY: RingTopology = RingTopology::PerNode;
}

fn fleet(name: &str) -> Fleet {
    Fleet::join(name, 1).ok().expect("fleet")
}

fn cache(fleet: &Fleet) -> Cache<TinyLayout> {
    Cache::<TinyLayout>::new(fleet, 8).ok().expect("cache")
}

fn transport() -> CacheTransport<TinyLayout> {
    CacheTransport::<TinyLayout>::new().ok().expect("transport")
}

fn revision(sequence: u64) -> CacheRevision {
    CacheRevision { sequence, mutation_id: NetId64::make(40, 0, sequence) }
}

fn hit(read: CacheRead) -> Bytes {
    match read {
        CacheRead::Hit(entry) => entry.value,
        other => panic!("expected a hit, got {:?}", other),
    }
}

#[test]
fn put_payload_spans_slots_and_peer_applies_the_descriptor() {
    let mut fleet = fleet("cache_chunks");
    let mut publisher = cache(&fleet);
    let mut peer = cache(&fleet);

    publisher
        .put(&mut fleet, b"greeting", b"hello-world", None)
        .expect("put");
    let poll = peer.poll(&fleet);

    assert_eq!(poll.observed, 1);
    assert_eq!(poll.applied, 1);
    assert!(poll.payload_unavailable.is_empty());
    let CacheRead::Hit(entry) = peer.read(b"greeting") else {
        panic!("peer must install the put in its local L1");
    };
    assert_eq!(&entry.value[..], b"hello-world");
}

#[test]
fn mutation_contains_a_payload_reference_not_the_value_bytes() {
    let mut fleet = fleet("cache_ref");
    let transport = transport();
    let mut cursor = transport.cursor_at_head(&fleet);

    transport
        .publish_put(&mut fleet, b"key", b"eight888", None)
        .expect("put");
    let poll = transport.poll(&fleet, &mut cursor);

    let [CacheMutation::Put { payload, .. }] = poll.mutations.as_slice() else {
        panic!("one put descriptor expected");
    };
    assert_eq!(payload.chunk_count, 2);
    assert_eq!(payload.value_len, 8);
    assert_eq!(
        transport.read_payload(&fleet, *payload).as_deref(),
        Some(&b"eight888"[..])
    );
}

#[test]
fn delete_and_reset_propagate_through_the_mutation_ring() {
    let mut fleet = fleet("cache_delete");
    let mut publisher = cache(&fleet);
    let mut peer = cache(&fleet);

    publisher.put(&mut fleet, b"a", b"A", None).expect("put a");
    publisher.put(&mut fleet, b"b", b"B", None).expect("put b");
    peer.poll(&fleet);
    assert!(matches!(peer.read(b"a"), CacheRead::Hit(_)));
    assert!(matches!(peer.read(b"b"), CacheRead::Hit(_)));

    publisher.delete(&mut fleet, b"a").expect("delete a");
    peer.poll(&fleet);
    assert_eq!(peer.read(b"a"), CacheRead::Miss);
    assert!(matches!(peer.read(b"b"), CacheRead::Hit(_)));

    publisher.reset(&mut fleet).expect("reset");
    peer.poll(&fleet);
    assert_eq!(peer.read(b"a"), CacheRead::Miss);
    assert_eq!(peer.read(b"b"), CacheRead::Miss);
}

#[test]
fn overwritten_payload_is_reported_and_never_misread() {
    let mut fleet = fleet("cache_payload_wrap");
    let mut publisher = cache(&fleet);
    let mut peer = cache(&fleet);

    publisher.put(&mut fleet, b"old", b"abcdefgh", None).expect("old put");
    publisher.put(&mut fleet, b"new-1", b"1111", None).expect("new put 1");
    publisher.put(&mut fleet, b"new-2", b"2222", None).expect("new put 2");
    publisher.put(&mut fleet, b"new-3", b"3333", None).expect("new put 3");

    let poll = peer.poll(&fleet);
    assert_eq!(
        poll.payload_unavailable,
        vec![bytes::Bytes::from_static(b"old")]
    );
    assert_eq!(peer.read(b"old"), CacheRead::Miss);
    assert!(matches!(peer.read(b"new-3"), CacheRead::Hit(_)));
}

#[test]
fn mutation_lag_disables_local_hits_until_resync() {
    let mut fleet = fleet("cache_mutation_wrap");
    let mut publisher = cache(&fleet);
    let mut peer = cache(&fleet);

    for index in 0..9 {
        publisher
            .delete(&mut fleet, format!("key-{}", index).as_bytes())
            .expect("delete");
    }
    let poll = peer.poll(&fleet);

    assert_eq!(poll.loss.overwritten, 1);
    assert!(poll.resync_required);
    assert_eq!(peer.read(b"anything"), CacheRead::ResyncRequired);
}

#[test]
fn backing_recovery_resubscribes_with_an_empty_coherent_l1() {
    let mut fleet = fleet("cache_recover");
    let mut publisher = cache(&fleet);
    let mut peer = cache(&fleet);

    for index in 0..9 {
        publisher
            .delete(&mut fleet, format!("key-{}", index).as_bytes())
            .expect("delete");
    }
    assert!(peer.poll(&fleet).resync_required);

    peer.recover_from_backing(&fleet);

    assert_eq!(peer.read(b"backing-key"), CacheRead::Miss);
    publisher
        .put(&mut fleet, b"future", b"visible", None)
        .expect("future put");
    assert_eq!(peer.poll(&fleet).applied, 1);
    assert!(matches!(peer.read(b"future"), CacheRead::Hit(_)));
}

#[test]
fn ttl_expiry_becomes_a_local_miss() {
    let mut fleet = fleet("cache_ttl");
    let mut cache = cache(&fleet);
    cache
        .put_at(&mut fleet, b"short", b"value", Some(1), 1_000)
        .expect("put");

    assert_eq!(&hit(cache.read_at(b"short", 1_000))[..], b"value");
    assert_eq!(cache.read_at(b"short", 1_003), CacheRead::Miss);
}

#[test]
fn value_larger_than_the_payload_lane_is_rejected_before_publication() {
    let mut fleet = fleet("cache_large");
    let transport = transport();
    let mut cursor = transport.cursor_at_head(&fleet);

    let error = transport
        .publish_put(&mut fleet, b"key", &[0; 17], None)
        .expect_err("value must exceed the four-slot lane");
    assert!(matches!(
        error,
        Error::ValueTooLarge {
            value_len: 17,
            max: 16
        }
    ));
    assert!(transport.poll(&fleet, &mut cursor).is_empty());
}

#[test]
fn empty_values_still_have_one_addressable_payload_frame() {
    let mut fleet = fleet("cache_empty");
    let transport = transport();
    let CacheMutation::Put { payload, .. } = transport
        .publish_put(&mut fleet, b"empty", b"", None)
        .expect("empty put")
    else {
        panic!("put expected");
    };

    assert_eq!(
        payload,
        PayloadRef {
            first_id: payload.first_id,
            payload_version: payload.payload_version,
            chunk_count: 1,
            value_len: 0,
        }
    );
    assert_eq!(transport.read_payload(&fleet, payload).as_deref(), Some(&b""[..]));
}

#[test]
fn the_default_layout_has_the_documented_limits() {
    let fleet = fleet("cache_limits");
    assert_eq!(CACHE_MUTATION_RING_KIND, 200);
    assert_eq!(CACHE_PAYLOAD_RING_KIND, 201);
    let cache = Cache::<DefaultCacheLayout>::with_default_capacity(&fleet).ok().expect("cache");
    assert_eq!(cache.local().capacity(), DEFAULT_L1_CAPACITY);
    assert!(cache.is_ready(&fleet));
    assert!(cache.validate_key(&vec![0; 985]).is_ok());
    let error = cache.validate_key(&vec![0; 986]).expect_err("one byte too many");
    assert_eq!(error.message(), "cache key is too large: 986 > 985");
    assert!(cache.validate_put(b"k", &vec![0; 4 << 20]).is_ok());
    let error = cache
        .validate_put(b"k", &vec![0; (4 << 20) + 1])
        .expect_err("one byte too many");
    assert_eq!(error.message(), "cache value is too large: 4194305 > 4194304");
}

#[test]
fn unusable_layouts_are_refused() {
    let complaint = |error: Option<Error>| error.expect("refused").message();
    assert_eq!(
        complaint(CacheTransport::<OneKindLayout>::new().err()),
        "invalid cache layout: mutation and payload ring kinds must differ"
    );
    assert_eq!(
        complaint(CacheTransport::<ShortMutationLayout>::new().err()),
        "invalid cache layout: mutation slots cannot hold a put header"
    );
    assert_eq!(
        complaint(CacheTransport::<OddRingLayout>::new().err()),
        "invalid cache layout: mutation ring spec is invalid"
    );
    let fleet = fleet("cache_layout");
    assert!(Cache::<EmptySlotLayout>::new(&fleet, 1).is_err());
    assert!(Cache::<OneKindLayout>::replay_retained(&fleet, 1).is_err());
}

#[test]
fn io_failures_show_their_cause() {
    let cause = IoError { kind: IoErrorKind::Os, message: String::from("no space") };
    let error = Error::Io(cause.clone());
    assert_eq!(error.message(), "orbit cache io error: no space");
    assert_eq!(error.source(), Some(&cause));
    assert!(Error::InvalidLayout("x").source().is_none());
}

#[test]
fn the_publisher_serves_its_own_put_at_once() {
    let mut fleet = fleet("cache_own");
    let mut cache = cache(&fleet);
    let first = cache.put(&mut fleet, b"k", b"one", None).expect("put");
    let second = cache.put(&mut fleet, b"k", b"two", None).expect("put");
    assert_eq!(first.sequence, 1);
    assert!(second.is_newer_than(first));
    assert_eq!(&hit(cache.read(b"k"))[..], b"two");
    // Its own mutations are no news to it.
    let poll = cache.poll(&fleet);
    assert_eq!(poll.observed, 2);
    assert_eq!(poll.ignored, 2);
    assert_eq!(poll.applied, 0);
    assert!(!poll.is_empty());
    assert!(cache.poll(&fleet).is_empty());
    cache.delete(&mut fleet, b"k").expect("delete");
    assert_eq!(cache.read(b"k"), CacheRead::Miss);
}

#[test]
fn history_is_replayed_as_far_as_it_is_retained() {
    let mut fleet = fleet("cache_replay");
    let mut publisher = cache(&fleet);
    publisher.put(&mut fleet, b"k", b"one", None).expect("put");
    publisher.put(&mut fleet, b"k", b"two", None).expect("put");
    let mut late = Cache::<TinyLayout>::replay_retained(&fleet, 8).ok().expect("cache");
    assert_eq!(late.read(b"k"), CacheRead::Miss);
    assert_eq!(late.poll(&fleet).applied, 2);
    assert_eq!(&hit(late.read(b"k"))[..], b"two");

    let mut newcomer = cache(&fleet);
    assert!(newcomer.poll(&fleet).is_empty());
    assert_eq!(newcomer.read(b"k"), CacheRead::Miss);
}

#[test]
fn members_agree_on_the_newest_value() {
    let mut zero = Fleet::join_as("cache_order", 2, NodeId::new(0)).ok().expect("fleet");
    let mut peer = cache(&zero);
    let mut writer = cache(&zero);
    writer.put(&mut zero, b"k", b"old", None).expect("put");
    let mut one = Fleet::attach(zero.detach(), NodeId::new(1)).ok().expect("attach");
    let mut other = cache(&one);
    let second = other.put(&mut one, b"k", b"new", None).expect("put");
    assert_eq!(second.sequence, 2);
    assert_eq!(second.mutation_id.node(), 1);
    // Both frames stand at position zero of their lanes; the sequence decides.
    assert_eq!(second.mutation_id.counter(), 0);
    assert_eq!(peer.poll(&one).applied, 2);
    assert_eq!(&hit(peer.read(b"k"))[..], b"new");
}

#[test]
fn polled_mutations_come_in_revision_order() {
    let frame = |sequence: u64, node: u16, key: &[u8]| Frame {
        id: NetId64::make(40, node, 0),
        kind: 2,
        ver: sequence,
        payload: encode_delete(key),
    };
    let junk = Frame {
        id: NetId64::make(40, 0, 9),
        kind: 9,
        ver: 9,
        payload: Bytes::from_static(b"junk"),
    };
    let frames = vec![frame(3, 0, b"c"), frame(5, 0, b"e"), junk, frame(4, 1, b"d")];
    let (mutations, malformed) = collect_mutations(&frames);
    let sequences: Vec<u64> = mutations.iter().map(|m| m.revision().sequence).collect();
    assert_eq!(sequences, vec![3, 4, 5]);
    assert_eq!(malformed, 1);
}

#[test]
fn mutations_are_laid_out_as_documented() {
    let payload = PayloadRef {
        first_id: NetId64::make(41, 2, 3),
        payload_version: 4,
        chunk_count: 5,
        value_len: 6,
    };
    let put = encode_put(b"ab", payload, Some(7));
    assert_eq!(put.len(), 41);
    assert_eq!(&put[..11], &[1, 2, 0, 7, 0, 0, 0, 0, 0, 0, 0]);
    assert_eq!(&put[27..31], &[5, 0, 0, 0]);
    assert_eq!(&put[39..], b"ab");
    let frame = |kind: u8, payload: Bytes| Frame {
        id: NetId64::make(40, 1, 8),
        kind,
        ver: 9,
        payload,
    };
    let id = NetId64::make(40, 1, 8);
    let revision = CacheRevision { sequence: 9, mutation_id: id };
    assert_eq!(
        decode_mutation(&frame(1, put.clone())),
        Some(CacheMutation::Put {
            key: Bytes::from_static(b"ab"),
            revision,
            payload,
            expires_at_ms: Some(7),
        })
    );
    assert_eq!(
        decode_mutation(&frame(2, encode_delete(b"k"))),
        Some(CacheMutation::Delete { key: Bytes::from_static(b"k"), revision })
    );
    assert_eq!(
        decode_mutation(&frame(3, encode_reset())),
        Some(CacheMutation::Reset { revision })
    );
    // The message class must agree with the operation, and the length with the key.
    assert_eq!(decode_mutation(&frame(2, put.clone())), None);
    assert_eq!(decode_mutation(&frame(1, put.slice(0..40))), None);
    assert_eq!(decode_mutation(&frame(1, Bytes::new())), None);
}

#[test]
fn revisions_are_ordered_by_sequence_then_identifier() {
    let a = CacheRevision { sequence: 1, mutation_id: NetId64::make(40, 9, 9) };
    let b = CacheRevision { sequence: 2, mutation_id: NetId64::make(40, 0, 0) };
    let c = CacheRevision { sequence: 2, mutation_id: NetId64::make(40, 0, 1) };
    assert!(b.is_newer_than(a));
    assert!(!a.is_newer_than(b));
    assert!(c.is_newer_than(b));
    assert!(c.is_newer_than(a));
    assert!(!a.is_newer_than(a));
}

#[test]
fn a_late_mutation_cannot_bring_back_a_deleted_value() {
    let mut local = LocalCache::new(4);
    local.install_missing(b"k", revision(5));
    local.install_local(b"k", Bytes::from_static(b"stale"), revision(4), None);
    assert_eq!(local.read_at(b"k", 0), CacheRead::Miss);
    local.install_local(b"k", Bytes::from_static(b"fresh"), revision(6), None);
    assert_eq!(&hit(local.read_at(b"k", 0))[..], b"fresh");
}

#[test]
fn eviction_raises_the_floor() {
    let mut local = LocalCache::new(2);
    local.install_missing(b"a", revision(5));
    local.install_local(b"b", Bytes::from_static(b"B"), revision(6), None);
    local.install_local(b"c", Bytes::from_static(b"C"), revision(7), None);
    assert_eq!(local.len(), 2);
    // The marker of `a` is gone, yet what it shut out stays out.
    local.install_local(b"a", Bytes::from_static(b"stale"), revision(4), None);
    assert_eq!(local.read_at(b"a", 0), CacheRead::Miss);
    local.install_local(b"a", Bytes::from_static(b"stale"), revision(5), None);
    assert_eq!(local.read_at(b"a", 0), CacheRead::Miss);
    local.install_local(b"a", Bytes::from_static(b"A"), revision(8), None);
    assert_eq!(&hit(local.read_at(b"a", 0))[..], b"A");
}

#[test]
fn the_least_recently_used_entry_leaves() {
    let mut local = LocalCache::new(2);
    local.install_local(b"a", Bytes::from_static(b"A"), revision(1), None);
    local.install_local(b"b", Bytes::from_static(b"B"), revision(2), None);
    assert!(matches!(local.read_at(b"a", 0), CacheRead::Hit(_)));
    local.install_local(b"c", Bytes::from_static(b"C"), revision(3), None);
    assert!(matches!(local.read_at(b"a", 0), CacheRead::Hit(_)));
    assert_eq!(local.read_at(b"b", 0), CacheRead::Miss);
    assert!(matches!(local.read_at(b"c", 0), CacheRead::Hit(_)));
}

#[test]
fn a_reset_spares_newer_entries() {
    let mut local = LocalCache::new(4);
    local.install_local(b"old", Bytes::from_static(b"O"), revision(1), None);
    local.install_local(b"new", Bytes::from_static(b"N"), revision(9), None);
    assert!(local.reset_local(revision(5)));
    assert_eq!(local.read_at(b"old", 0), CacheRead::Miss);
    assert!(matches!(local.read_at(b"new", 0), CacheRead::Hit(_)));
    assert!(!local.reset_local(revision(5)));
    // What the reset swept away does not come back.
    local.install_local(b"old", Bytes::from_static(b"O"), revision(5), None);
    assert_eq!(local.read_at(b"old", 0), CacheRead::Miss);
}

#[test]
fn an_expired_value_leaves_a_marker() {
    let mut local = LocalCache::new(4);
    local.install_local(b"k", Bytes::from_static(b"V"), revision(5), Some(100));
    assert!(matches!(local.read_at(b"k", 99), CacheRead::Hit(_)));
    assert_eq!(local.read_at(b"k", 100), CacheRead::Miss);
    assert_eq!(local.read_at(b"k", 50), CacheRead::Miss);
    assert_eq!(local.len(), 1);
    local.install_local(b"k", Bytes::from_static(b"stale"), revision(4), None);
    assert_eq!(local.read_at(b"k", 0), CacheRead::Miss);
}

#[test]
fn a_distrusted_cache_ignores_mutations() {
    let fleet = fleet("cache_distrust");
    let transport = transport();
    let mut local = LocalCache::new(4);
    local.install_local(b"k", Bytes::from_static(b"V"), revision(1), None);
    local.require_resync();
    assert!(!local.is_coherent());
    assert_eq!(local.len(), 0);
    let delete = CacheMutation::Delete { key: Bytes::from_static(b"k"), revision: revision(2) };
    assert_eq!(local.apply(&transport, &fleet, &delete), ApplyOutcome::Ignored);
    local.install_local(b"k", Bytes::from_static(b"V"), revision(3), None);
    assert_eq!(local.read_at(b"k", 0), CacheRead::ResyncRequired);

    local.recover_from_backing(7);
    assert!(local.is_coherent());
    local.install_local(b"k", Bytes::from_static(b"late"), revision(7), None);
    assert_eq!(local.read_at(b"k", 0), CacheRead::Miss);
    local.install_local(b"k", Bytes::from_static(b"V"), revision(8), None);
    assert!(matches!(local.read_at(b"k", 0), CacheRead::Hit(_)));

    local.reset_after_transport_reset();
    local.install_local(b"k", Bytes::from_static(b"V"), revision(1), None);
    assert!(matches!(local.read_at(b"k", 0), CacheRead::Hit(_)));
}

#[test]
fn a_put_whose_bytes_are_gone_is_a_miss() {
    let fleet = fleet("cache_gone");
    let transport = transport();
    let mut local = LocalCache::new(4);
    let put = CacheMutation::Put {
        key: Bytes::from_static(b"k"),
        revision: revision(1),
        payload: PayloadRef {
            first_id: NetId64::make(41, 0, 0),
            payload_version: 1,
            chunk_count: 1,
            value_len: 1,
        },
        expires_at_ms: None,
    };
    assert_eq!(
        local.apply(&transport, &fleet, &put),
        ApplyOutcome::PayloadUnavailable { key: Bytes::from_static(b"k") }
    );
    assert_eq!(local.read_at(b"k", 0), CacheRead::Miss);
    assert_eq!(local.apply(&transport, &fleet, &put), ApplyOutcome::Ignored);
}

#[test]
fn references_are_checked_chunk_by_chunk() {
    let mut fleet = fleet("cache_reference");
    let transport = transport();
    let CacheMutation::Put { payload, .. } = transport
        .publish_put(&mut fleet, b"k", b"abcdef", None)
        .expect("put")
    else {
        panic!("put expected");
    };
    assert_eq!(payload.chunk_count, 2);
    assert_eq!(transport.read_payload(&fleet, payload).as_deref(), Some(&b"abcdef"[..]));
    let mut wrong = payload;
    wrong.payload_version = 9;
    assert!(transport.read_payload(&fleet, wrong).is_none());
    let mut wrong = payload;
    wrong.value_len = 5;
    assert!(transport.read_payload(&fleet, wrong).is_none());
    let mut wrong = payload;
    wrong.chunk_count = 0;
    assert!(transport.read_payload(&fleet, wrong).is_none());
    let mut wrong = payload;
    wrong.first_id = NetId64::make(40, 0, 0);
    assert!(transport.read_payload(&fleet, wrong).is_none());
}

#[test]
fn resetting_the_transport_starts_a_new_generation() {
    let mut fleet = fleet("cache_generation");
    let mut cache = cache(&fleet);
    cache.put(&mut fleet, b"k", b"old", None).expect("put");
    cache.reset_transport(&mut fleet).expect("reset");
    assert_eq!(cache.read(b"k"), CacheRead::Miss);
    assert_eq!(cache.transport().current_revision_sequence(&fleet), 0);
    let revision = cache.put(&mut fleet, b"k", b"new", None).expect("put");
    assert_eq!(revision.sequence, 1);
    assert_eq!(&hit(cache.read(b"k"))[..], b"new");
}

#[test]
fn a_refused_put_changes_nothing() {
    let mut fleet = fleet("cache_refused");
    let mut cache = cache(&fleet);
    assert!(cache.put(&mut fleet, &[0; 90], b"v", None).is_err());
    assert!(cache.delete(&mut fleet, &[0; 90]).is_err());
    assert!(cache.poll(&fleet).is_empty());
    assert!(cache.put(&mut fleet, &[0; 89], b"v", None).is_ok());
}

#[test]
fn nothing_polled_is_the_default() {
    let fleet = fleet("cache_nothing");
    assert_eq!(cache(&fleet).poll(&fleet), CachePoll::default());
}

struct OneLaneLayout;

impl CacheLayout for OneLaneLayout {
    const MUTATION_RING_KIND: u8 = 42;
    const MUTATION_RING_CAPACITY: usize = 8;
    const MUTATION_RING_PAYLOAD: usize = 128;
    const MUTATION_RING_TOPOLOGY: RingTopology = RingTopology::Shared;
    const PAYLOAD_RING_KIND: u8 = 43;
    const PAYLOAD_RING_CAPACITY: usize = 4;
    const PAYLOAD_RING_PAYLOAD: usize = 4;
    const PAYLOAD_RING_TOPOLOGY: RingTopology = RingTopology::Shared;
}

#[test]
fn a_layout_may_share_its_lanes() {
    let mut fleet = fleet("cache-shared-lanes");
    let mut publisher = Cache::<OneLaneLayout>::new(&fleet, 8).expect("publisher");
    let mut peer = Cache::<OneLaneLayout>::new(&fleet, 8).expect("peer");
    publisher.put(&mut fleet, b"key", b"longer than a slot", None).expect_err("five chunks");
    publisher.put(&mut fleet, b"key", b"three chunks", None).expect("three chunks");
    let poll = peer.poll(&fleet);
    assert_eq!((poll.observed, poll.applied), (1, 1));
    assert_eq!(&hit(peer.read(b"key"))[..], b"three chunks");
}

#[test]
fn polls_add_up_and_a_second_poll_is_empty() {
    let mut fleet = fleet("cache-accounting");
    let mut publisher = cache(&fleet);
    let mut peer = cache(&fleet);
    // The payload lane has four slots, so the second value takes those of the first.
    publisher.put(&mut fleet, b"first", b"four chunks here", None).expect("first");
    publisher.put(&mut fleet, b"second", b"four chunks more", None).expect("second");
    publisher.delete(&mut fleet, b"third").expect("delete");
    let poll = peer.poll(&fleet);
    assert_eq!(poll.observed, 3);
    assert_eq!(poll.applied, 2);
    assert_eq!(poll.ignored, 0);
    assert_eq!(poll.payload_unavailable.len(), 1);
    assert_eq!(&poll.payload_unavailable[0][..], b"first");
    assert!(!poll.resync_required);
    assert!(peer.poll(&fleet).is_empty());
    assert!(matches!(peer.read(b"first"), CacheRead::Miss));
}

#[test]
fn after_a_reset_of_the_rings_reads_miss_and_polls_are_empty() {
    let mut fleet = fleet("cache-afresh");
    let mut publisher = cache(&fleet);
    for key in 0..12u8 {
        publisher.put(&mut fleet, &[key], b"v", None).expect("put");
    }
    publisher.reset_transport(&mut fleet).expect("reset");
    assert!(matches!(publisher.read(&[11]), CacheRead::Miss));
    let poll = publisher.poll(&fleet);
    assert!(poll.is_empty());
    assert!(!poll.resync_required);
}
