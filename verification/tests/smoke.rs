//! The fleet, its identifiers and its rings, end to end.

use bytes::Bytes;
use orbit::{Error, Fleet, NetId64, NodeId, OrbitTyped, Orbital, RingTopology};

#[derive(Clone, Debug)]
struct CurrencyRate;

impl OrbitTyped for CurrencyRate {
    const KIND: u8 = 7;
    const CAPACITY: usize = 4;
    const PAYLOAD_CAPACITY: usize = 256;
    const TOPOLOGY: RingTopology = RingTopology::Shared;
}

/// A ring with one lane per member.
#[derive(Clone, Debug)]
struct LaneRate;

impl OrbitTyped for LaneRate {
    const KIND: u8 = 8;
    const CAPACITY: usize = 4;
    const PAYLOAD_CAPACITY: usize = 256;
    const TOPOLOGY: RingTopology = RingTopology::PerNode;
}

/// The kind of [`CurrencyRate`] with more slots.
#[derive(Clone, Debug)]
struct WiderRate;

impl OrbitTyped for WiderRate {
    const KIND: u8 = 7;
    const CAPACITY: usize = 8;
    const PAYLOAD_CAPACITY: usize = 256;
    const TOPOLOGY: RingTopology = RingTopology::Shared;
}

#[derive(Clone, Debug)]
struct UserSession;

impl OrbitTyped for UserSession {
    const KIND: u8 = 9;
    const CAPACITY: usize = 4;
    const PAYLOAD_CAPACITY: usize = 256;
    const TOPOLOGY: RingTopology = RingTopology::Shared;
}

/// A record of one `u32`.
#[derive(Clone, Copy, Debug, PartialEq, Eq)]
struct SimpleCounter(u32);

impl OrbitTyped for SimpleCounter {
    const KIND: u8 = 11;
    const CAPACITY: usize = 1024;
    const PAYLOAD_CAPACITY: usize = 4;
    const TOPOLOGY: RingTopology = RingTopology::Shared;
}

#[derive(Clone, Copy, Debug, PartialEq, Eq)]
struct OtherValue(u32);

impl OrbitTyped for OtherValue {
    const KIND: u8 = 12;
    const CAPACITY: usize = 1024;
    const PAYLOAD_CAPACITY: usize = 4;
    const TOPOLOGY: RingTopology = RingTopology::Shared;
}

fn store<T: OrbitTyped>(orbital: &Orbital<T>, fleet: &mut Fleet, value: u32) -> NetId64 {
    orbital.store(fleet, bytemuck::bytes_of(&value))
}

fn number(record: Option<Bytes>) -> Option<u32> {
    record.map(|bytes| bytemuck::pod_read_unaligned::<u32>(&bytes))
}

#[test]
fn empty_fleet_rejected() {
    let err = Fleet::join("test", 0).err().unwrap();
    assert!(matches!(err, Error::EmptyFleet));
}

#[test]
fn join_single_member_succeeds() {
    let fleet = Fleet::join("test", 1).ok().unwrap();
    assert_eq!(fleet.name(), "test");
    assert_eq!(fleet.fleet_size(), 1);
    assert_eq!(fleet.node_id().get(), 0);
}

#[test]
fn member_outside_the_fleet_is_rejected() {
    let err = Fleet::join_as("test", 2, NodeId::new(2)).err().unwrap();
    assert_eq!(err, Error::NodeOutsideFleet { node_id: 2, fleet_size: 2 });
    assert_eq!(err.message(), "node_id 2 is outside fleet_size 2");
    assert!(Fleet::join_as("test", 2, NodeId::new(1)).is_ok());
}

#[test]
fn next_id_carries_kind_and_node() {
    let mut fleet = Fleet::join("test", 1).ok().unwrap();
    let id = fleet.next_id::<CurrencyRate>();
    assert_eq!(id.kind(), 7);
    assert_eq!(id.node(), fleet.node_id().get());
    assert_eq!(id.counter(), 0);
}

#[test]
fn next_id_increments_counter_per_kind() {
    let mut fleet = Fleet::join("test", 1).ok().unwrap();
    let a = fleet.next_id::<CurrencyRate>();
    let b = fleet.next_id::<CurrencyRate>();
    let c = fleet.next_id::<CurrencyRate>();
    assert_eq!(a.counter(), 0);
    assert_eq!(b.counter(), 1);
    assert_eq!(c.counter(), 2);
}

#[test]
fn next_id_independent_counters_per_kind() {
    let mut fleet = Fleet::join("test", 1).ok().unwrap();
    let r1 = fleet.next_id::<CurrencyRate>();
    let s1 = fleet.next_id::<UserSession>();
    let r2 = fleet.next_id::<CurrencyRate>();
    let s2 = fleet.next_id::<UserSession>();
    assert_eq!(r1.counter(), 0);
    assert_eq!(s1.counter(), 0);
    assert_eq!(r2.counter(), 1);
    assert_eq!(s2.counter(), 1);
    assert_ne!(r1.kind(), s1.kind());
}

#[test]
fn orbit_id_display_and_parse_roundtrip() {
    let mut fleet = Fleet::join("test", 1).ok().unwrap();
    let id = fleet.next_id::<CurrencyRate>();
    let s = id.to_text();
    let parsed: NetId64 = NetId64::parse(&s).unwrap();
    assert_eq!(parsed, id);
}

#[test]
fn orbit_id_be_bytes_roundtrip() {
    let mut fleet = Fleet::join("test", 1).ok().unwrap();
    let id = fleet.next_id::<CurrencyRate>();
    let bytes = id.to_be_bytes();
    assert_eq!(NetId64::from_be_bytes(bytes), id);
}

#[test]
fn identifiers_pack_their_fields() {
    let id = NetId64::make(7, 3, 42);
    assert_eq!(id.raw(), 0x0700_0300_0000_002a);
    assert_eq!(NetId64::from_raw(id.raw()), id);
    assert_eq!(id.to_be_bytes(), [7, 0, 3, 0, 0, 0, 0, 42]);
    assert_eq!(id.to_text(), "7:3:42");
    assert_eq!(NetId64::parse("7:3:42"), Ok(id));
    assert!(NetId64::parse("7:3").is_err());
    assert!(NetId64::parse("nothing").is_err());
}

#[test]
fn identifier_counters_wrap_at_forty_bits() {
    let span: u64 = 1 << 40;
    let id = NetId64::make(255, 65_535, span + 5);
    assert_eq!(id.kind(), 255);
    assert_eq!(id.node(), 65_535);
    assert_eq!(id.counter(), 5);
    assert_ne!(NetId64::make(1, 1, 5), NetId64::make(1, 2, 5));
    assert_ne!(NetId64::make(1, 1, 5), NetId64::make(1, 1, 6));
}

#[test]
fn publish_returns_id_with_correct_kind_and_node() {
    let mut fleet = Fleet::join("test", 1).ok().unwrap();
    let id = fleet.publish::<CurrencyRate>(0, 0, Bytes::from_static(b"hello"));
    assert_eq!(id.kind(), CurrencyRate::KIND);
    assert_eq!(id.node(), fleet.node_id().get());
    assert_eq!(id.counter(), 0);
}

#[test]
fn publish_increments_counter_per_kind() {
    let mut fleet = Fleet::join("test", 1).ok().unwrap();
    let a = fleet.publish::<CurrencyRate>(0, 0, Bytes::from_static(b"a"));
    let b = fleet.publish::<CurrencyRate>(0, 0, Bytes::from_static(b"b"));
    let c = fleet.publish::<CurrencyRate>(0, 0, Bytes::from_static(b"c"));
    assert_eq!(a.counter(), 0);
    assert_eq!(b.counter(), 1);
    assert_eq!(c.counter(), 2);
}

#[test]
fn read_returns_published_frame() {
    let mut fleet = Fleet::join("test", 1).ok().unwrap();
    let id = fleet.publish::<CurrencyRate>(0, 7, Bytes::from_static(b"payload"));
    let frame = fleet.read(id).expect("frame should be present");
    assert_eq!(frame.id, id);
    assert_eq!(frame.kind, 0);
    assert_eq!(frame.ver, 7);
    assert_eq!(&frame.payload[..], b"payload");
}

#[test]
fn read_unknown_kind_returns_none() {
    let fleet = Fleet::join("test", 1).ok().unwrap();
    let phantom = NetId64::make(42, 0, 0);
    assert!(fleet.read(phantom).is_none());
}

#[test]
fn ring_wraparound_overwrites_old_frames() {
    let mut fleet = Fleet::join("test", 1).ok().unwrap();
    let mut ids = Vec::new();
    for i in 0..6 {
        ids.push(fleet.publish::<CurrencyRate>(0, i as u64, Bytes::from(vec![i as u8])));
    }

    // Counters 0 and 1 have been overwritten by 4 and 5.
    assert!(fleet.read(ids[0]).is_none());
    assert!(fleet.read(ids[1]).is_none());
    for id in &ids[2..] {
        assert!(fleet.read(*id).is_some(), "id {:?} should still be in ring", id);
    }
}

#[test]
fn ring_per_kind_is_independent() {
    let mut fleet = Fleet::join("test", 1).ok().unwrap();
    let r_id = fleet.publish::<CurrencyRate>(0, 0, Bytes::from_static(b"rate"));
    let s_id = fleet.publish::<UserSession>(0, 0, Bytes::from_static(b"session"));
    assert_eq!(r_id.kind(), CurrencyRate::KIND);
    assert_eq!(s_id.kind(), UserSession::KIND);
    assert!(fleet.read(r_id).is_some());
    assert!(fleet.read(s_id).is_some());
}

#[test]
fn ring_head_advances_with_writes() {
    let mut fleet = Fleet::join("test", 1).ok().unwrap();
    assert_eq!(fleet.ring::<CurrencyRate>().head(), 0);
    fleet.publish::<CurrencyRate>(0, 0, Bytes::from_static(b"x"));
    assert_eq!(fleet.ring::<CurrencyRate>().head(), 1);
    fleet.publish::<CurrencyRate>(0, 0, Bytes::from_static(b"y"));
    assert_eq!(fleet.ring::<CurrencyRate>().head(), 2);
}

#[test]
fn ring_read_head_returns_latest_frame() {
    let mut fleet = Fleet::join("test", 1).ok().unwrap();
    assert!(fleet.ring::<CurrencyRate>().read_head().is_none());

    fleet.publish::<CurrencyRate>(0, 0, Bytes::from_static(b"first"));
    let last_id = fleet.publish::<CurrencyRate>(0, 0, Bytes::from_static(b"second"));

    let head_frame = fleet
        .ring::<CurrencyRate>()
        .read_head()
        .expect("ring has head after writes");
    assert_eq!(head_frame.id, last_id);
    assert_eq!(&head_frame.payload[..], b"second");
    assert_eq!(fleet.read_head::<CurrencyRate>().unwrap().id, last_id);
}

#[test]
fn batches_are_published_one_behind_the_other() {
    let mut fleet = Fleet::join("test", 1).ok().unwrap();
    fleet.publish::<CurrencyRate>(0, 0, Bytes::from_static(b"before"));
    let first = fleet.publish_batch::<CurrencyRate>(
        3,
        9,
        vec![Bytes::from_static(b"one"), Bytes::from_static(b"two")],
    );
    assert_eq!(first.counter(), 1);
    let second = NetId64::make(first.kind(), first.node(), 2);
    let frame = fleet.read(second).expect("second of the batch");
    assert_eq!(frame.kind, 3);
    assert_eq!(frame.ver, 9);
    assert_eq!(&frame.payload[..], b"two");
    assert_eq!(fleet.head::<CurrencyRate>(), 3);
}

#[test]
fn members_share_what_one_of_them_published() {
    let mut first = Fleet::join_as("shared", 2, NodeId::new(0)).ok().unwrap();
    let id = first.publish::<LaneRate>(0, 0, Bytes::from_static(b"from zero"));
    let mut second = Fleet::attach(first.detach(), NodeId::new(1)).ok().unwrap();
    assert_eq!(second.node_id(), NodeId::new(1));
    assert_eq!(&second.read(id).unwrap().payload[..], b"from zero");

    // Each member writes to a lane of its own.
    let own = second.publish::<LaneRate>(0, 0, Bytes::from_static(b"from one"));
    assert_eq!(own.counter(), 0);
    assert_eq!(own.node(), 1);
    assert!(Fleet::attach(second.detach(), NodeId::new(2)).is_err());
}

#[test]
fn versions_are_shared_by_all_members() {
    let mut first = Fleet::join_as("versions", 2, NodeId::new(0)).ok().unwrap();
    assert_eq!(first.current_version::<CurrencyRate>(), 0);
    assert_eq!(first.next_version::<CurrencyRate>(), 1);
    let mut second = Fleet::attach(first.detach(), NodeId::new(1)).ok().unwrap();
    assert_eq!(second.next_version::<CurrencyRate>(), 2);
    assert_eq!(second.current_version::<CurrencyRate>(), 2);
    assert_eq!(second.current_version::<UserSession>(), 0);
}

#[test]
fn resetting_a_ring_forgets_its_frames() {
    let mut fleet = Fleet::join("reset", 1).ok().unwrap();
    let id = fleet.publish::<CurrencyRate>(0, 0, Bytes::from_static(b"gone"));
    let other = fleet.publish::<UserSession>(0, 0, Bytes::from_static(b"kept"));
    fleet.reset_ring::<CurrencyRate>();
    assert!(fleet.read(id).is_none());
    assert_eq!(fleet.head::<CurrencyRate>(), 0);
    assert!(fleet.read(other).is_some());
}

#[test]
fn a_kind_keeps_the_layout_it_was_first_used_with() {
    let mut fleet = Fleet::join("layout", 1).ok().unwrap();
    assert!(fleet.is_compatible::<WiderRate>());
    fleet.publish::<CurrencyRate>(0, 0, Bytes::from_static(b"x"));
    assert!(fleet.is_compatible::<CurrencyRate>());
    assert!(!fleet.is_compatible::<WiderRate>());
    assert!(fleet.has_room::<CurrencyRate>(1));
    assert!(!fleet.has_room::<WiderRate>(1));
}

#[test]
fn orbital_simple_counter_roundtrip() {
    let mut fleet = Fleet::join("test", 1).ok().unwrap();
    let counter = Orbital::<SimpleCounter>::new(4);

    assert!(counter.load(&fleet).is_none(), "no value before first store");

    store(&counter, &mut fleet, 42);
    assert_eq!(number(counter.load(&fleet)), Some(42));

    store(&counter, &mut fleet, 99);
    assert_eq!(number(counter.load(&fleet)), Some(99));
}

#[test]
fn orbital_store_returns_addressable_id() {
    let mut fleet = Fleet::join("test", 1).ok().unwrap();
    let counter = Orbital::<SimpleCounter>::new(4);

    let id_a = store(&counter, &mut fleet, 7);
    let id_b = store(&counter, &mut fleet, 8);

    assert_eq!(id_a.kind(), SimpleCounter::KIND);
    assert_eq!(id_b.kind(), SimpleCounter::KIND);
    assert_eq!(id_b.counter(), id_a.counter() + 1);

    assert_eq!(number(counter.load_by_id(&fleet, id_a)), Some(7));
    assert_eq!(number(counter.load_by_id(&fleet, id_b)), Some(8));
}

#[test]
fn orbital_handles_for_same_type_share_state() {
    let mut fleet = Fleet::join("test", 1).ok().unwrap();
    let writer = Orbital::<SimpleCounter>::new(4);
    let reader = Orbital::<SimpleCounter>::new(4);

    store(&writer, &mut fleet, 1234);
    assert_eq!(number(reader.load(&fleet)), Some(1234));
}

#[test]
fn orbital_distinct_types_independent() {
    let mut fleet = Fleet::join("test", 1).ok().unwrap();
    let counter = Orbital::<SimpleCounter>::new(4);
    let other = Orbital::<OtherValue>::new(4);

    store(&counter, &mut fleet, 100);
    store(&other, &mut fleet, 200);

    assert_eq!(number(counter.load(&fleet)), Some(100));
    assert_eq!(number(other.load(&fleet)), Some(200));
}

#[test]
fn orbital_ignores_records_of_another_length() {
    let mut fleet = Fleet::join("test", 1).ok().unwrap();
    let counter = Orbital::<SimpleCounter>::new(4);
    let id = fleet.publish::<SimpleCounter>(0, 0, Bytes::from_static(b"abc"));
    assert!(counter.load(&fleet).is_none());
    assert!(counter.load_by_id(&fleet, id).is_none());
}
