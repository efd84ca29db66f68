//! Rings over shared-memory segments, and how segments are opened.

use std::cell::RefCell;
use std::rc::Rc;

use bytes::Bytes;
use orbit::ring::shm::{
    after_look, plan_write, segment_size_for_capacity, ReadStep, ShmRing, ShmRingHeader, ShmSegment,
    ShmSlot, MAGIC, PAYLOAD_MAX, READ_ATTEMPTS, VERSION,
};
use orbit::ring::shm_registry::ShmRingRegistry;
use orbit::shm::{advance, check_name, ring_segment_name, size_error, OpenEvent, OpenStep};
use orbit::{poll_ring, Error, IoError, IoErrorKind, NetId64, NodeId, RingCursor, RingRead};

fn open(name: &str, kind: u8, capacity: usize) -> ShmRing {
    ShmRing::open_or_create(name, kind, capacity, &mut None).ok().unwrap()
}

/// Handle on a segment that several handles have open. Each operation finds the
/// segment as the last one, through whichever handle, has left it.
struct Handle {
    name: &'static str,
    kind: u8,
    capacity: usize,
    created: bool,
    shared: Rc<RefCell<Option<ShmSegment>>>,
}

impl Handle {
    fn open(
        name: &'static str,
        kind: u8,
        capacity: usize,
        shared: &Rc<RefCell<Option<ShmSegment>>>,
    ) -> Handle {
        let ring = ShmRing::open_or_create(name, kind, capacity, &mut shared.borrow_mut())
            .ok()
            .unwrap();
        let created = ring.created();
        *shared.borrow_mut() = Some(ring.into_segment());
        Handle { name, kind, capacity, created, shared: shared.clone() }
    }

    fn with<T>(&self, operation: impl FnOnce(&mut ShmRing) -> T) -> T {
        let mut shared = self.shared.borrow_mut();
        let mut ring = ShmRing::open_or_create(self.name, self.kind, self.capacity, &mut shared)
            .ok()
            .unwrap();
        let result = operation(&mut ring);
        *shared = Some(ring.into_segment());
        result
    }
}

#[test]
fn open_or_create_creates_first_then_attaches() {
    let shared = Rc::new(RefCell::new(None));
    let r1 = Handle::open("ts0", 7, 16, &shared);
    assert!(r1.created, "first opener creates");
    let r2 = Handle::open("ts0", 7, 16, &shared);
    assert!(!r2.created, "second opener attaches");
}

#[test]
fn write_then_read_returns_same_frame() {
    let mut ring = open("ts1", 7, 16);
    let id = ring
        .write(NodeId::new(3), 0, 42, Bytes::from_static(b"hello"))
        .unwrap();
    assert_eq!(id.kind(), 7);
    assert_eq!(id.node(), 3);
    assert_eq!(id.counter(), 0);

    let frame = ring.read(id).unwrap();
    assert_eq!(frame.id, id);
    assert_eq!(frame.kind, 0);
    assert_eq!(frame.ver, 42);
    assert_eq!(&frame.payload[..], b"hello");
}

#[test]
fn head_advances_with_writes() {
    let mut ring = open("ts2", 5, 16);
    assert_eq!(ring.head(), 0);
    ring.write(NodeId::new(0), 0, 0, Bytes::from_static(b"a"))
        .unwrap();
    ring.write(NodeId::new(0), 0, 0, Bytes::from_static(b"b"))
        .unwrap();
    assert_eq!(ring.head(), 2);
}

#[test]
fn read_head_returns_latest() {
    let mut ring = open("ts3", 5, 16);
    assert!(ring.read_head().is_none());

    ring.write(NodeId::new(0), 0, 0, Bytes::from_static(b"first"))
        .unwrap();
    let last = ring
        .write(NodeId::new(0), 0, 0, Bytes::from_static(b"second"))
        .unwrap();

    let frame = ring.read_head().unwrap();
    assert_eq!(frame.id, last);
    assert_eq!(&frame.payload[..], b"second");
}

#[test]
fn wraparound_overwrites_old_slots() {
    let mut ring = open("ts4", 5, 4);
    let mut ids = Vec::new();
    for i in 0..6 {
        let id = ring
            .write(NodeId::new(0), 0, 0, Bytes::from(vec![i]))
            .unwrap();
        ids.push(id);
    }
    // First two slots overwritten by writes 4 and 5.
    assert!(ring.read(ids[0]).is_none());
    assert!(ring.read(ids[1]).is_none());
    for id in &ids[2..] {
        assert!(ring.read(*id).is_some(), "id {:?} should still be live", id);
    }
}

#[test]
fn two_handles_same_segment_share_state() {
    let shared = Rc::new(RefCell::new(None));
    let writer = Handle::open("ts5", 9, 16, &shared);
    let reader = Handle::open("ts5", 9, 16, &shared);
    assert!(writer.created);
    assert!(!reader.created);

    let id = writer
        .with(|ring| ring.write(NodeId::new(1), 0, 0, Bytes::from_static(b"shared")))
        .unwrap();
    let frame = reader.with(|ring| ring.read(id)).unwrap();
    assert_eq!(&frame.payload[..], b"shared");
}

#[test]
fn payload_too_large_returns_error() {
    let mut ring = open("ts6", 3, 16);
    let huge = Bytes::from(vec![0u8; PAYLOAD_MAX + 1]);
    let error = ring.write(NodeId::new(0), 0, 0, huge).unwrap_err();
    assert_eq!(error.kind, IoErrorKind::InvalidInput);
    assert_eq!(error.message, "payload 257 > PAYLOAD_MAX 256");
    assert_eq!(ring.head(), 0);
}

#[test]
fn segments_of_another_ring_are_refused() {
    let attach = |kind: u8, capacity: usize| {
        let mut existing = Some(open("/orbit-x-7-0", 7, 16).into_segment());
        let error = ShmRing::open_or_create("/orbit-x-7-0", kind, capacity, &mut existing)
            .err()
            .unwrap();
        assert_eq!(error.kind, IoErrorKind::InvalidData);
        assert!(existing.is_some(), "a refused segment stays");
        error.message
    };
    assert_eq!(attach(8, 16), "SHM segment /orbit-x-7-0 kind 7 != requested 8");
    assert_eq!(attach(7, 32), "SHM segment /orbit-x-7-0 capacity 16 != requested 32");

    let mut header = ShmRingHeader::new(7, 16);
    assert!(header.check("s", 7, 16).is_ok());
    header.version = 2;
    assert_eq!(
        header.check("s", 7, 16).unwrap_err().message,
        "SHM segment s version 2 != local 1"
    );
    header.magic = 0xab;
    let error = header.check("s", 7, 16).unwrap_err();
    assert_eq!(error.kind, IoErrorKind::InvalidData);
    assert_eq!(error.message, "SHM segment s has wrong magic 0x000000AB (expected 0x4F524254)");
}

#[test]
fn segments_hold_a_header_and_their_slots() {
    assert_eq!(segment_size_for_capacity(0), 64);
    assert_eq!(segment_size_for_capacity(16), 64 + 16 * 320);
}

#[test]
fn torn_and_unwritten_slots_are_not_read() {
    let mut slot = ShmSlot::empty();
    assert!(slot.committed_frame(0).is_none());
    slot.seq = 2;
    slot.id = NetId64::make(7, 0, 0).raw();
    slot.payload_len = 2;
    slot.payload[0] = b'h';
    slot.payload[1] = b'i';
    assert_eq!(&slot.committed_frame(2).unwrap().payload[..], b"hi");
    // Another writer came by between the two looks at the sequence.
    assert!(slot.committed_frame(3).is_none());
    assert!(matches!(slot.state_of(2, 0), RingRead::Ready(_)));
    assert!(matches!(slot.state_of(2, 1), RingRead::Pending));
    slot.seq = 1;
    assert!(slot.committed_frame(1).is_none());
    assert!(matches!(slot.state_of(1, 0), RingRead::Pending));
    slot.seq = 34;
    assert!(matches!(slot.state_of(34, 0), RingRead::Unavailable));
    slot.payload_len = 257;
    assert!(slot.committed_frame(34).is_none());
}

#[test]
fn writes_are_planned_by_their_counter() {
    let plan = plan_write(7, NodeId::new(2), 21, 16);
    assert_eq!(plan.slot, 5);
    assert_eq!(plan.writing, 43);
    assert_eq!(plan.committed, 44);
    assert_eq!(plan.id, NetId64::make(7, 2, 21));
}

#[test]
fn shared_memory_rings_can_be_walked_and_reset() {
    let mut ring = open("ts7", 5, 4);
    for i in 0..5u8 {
        ring.write(NodeId::new(0), 1, 0, Bytes::from(vec![i])).unwrap();
    }
    let mut cursor = RingCursor::from_start();
    let poll = poll_ring(&ring, &mut cursor);
    assert_eq!(poll.loss.overwritten, 1);
    assert_eq!(poll.frames.len(), 4);
    assert!(matches!(ring.read_state_at(0), RingRead::Unavailable));
    assert!(matches!(ring.read_state_at(4), RingRead::Ready(_)));
    assert!(matches!(ring.read_state_at(5), RingRead::Pending));
    assert_eq!(ring.read_at(2).unwrap().id.counter(), 2);
    ring.reset();
    assert_eq!(ring.head(), 0);
    assert!(ring.read_at(2).is_none());
    assert_eq!(ring.kind(), 5);
    assert_eq!(ring.capacity(), 4);
}

#[test]
fn registries_open_each_kind_once() {
    let mut registry = ShmRingRegistry::new("fleet", 1000, 8);
    assert!(registry.lookup(3).is_none());
    assert!(registry.get_or_create_for(3, &mut None).is_ok());
    assert!(registry.lookup(3).unwrap().created());
    let id = registry
        .write(3, NodeId::new(0), 0, 0, Bytes::from_static(b"x"))
        .expect("the kind is open")
        .expect("the payload fits");
    assert!(registry.write(9, NodeId::new(0), 0, 0, Bytes::new()).is_none());
    assert!(registry.get_or_create_for(3, &mut None).is_ok());
    assert!(registry.lookup(3).unwrap().read(id).is_some());
    let mut foreign = Some(open("other", 9, 8).into_segment());
    let error = registry.get_or_create_for(4, &mut foreign).err().unwrap();
    assert!(foreign.is_some());
    assert_eq!(error.message, "SHM segment /orbit-fleet-4-1000 kind 9 != requested 4");
    assert!(registry.lookup(4).is_none());
}

#[test]
fn segment_names_carry_fleet_kind_and_user() {
    assert_eq!(ring_segment_name("web", 7, 1000), "/orbit-web-7-1000");
    assert_eq!(ring_segment_name("", 255, 0), "/orbit--255-0");
    assert!(check_name("/orbit-web-7-1000").is_ok());
    let error = check_name("a\0b").unwrap_err();
    assert_eq!(error.kind, IoErrorKind::InvalidInput);
    assert_eq!(error.message, "shm name has nul byte");
}

#[test]
fn a_segment_that_is_too_small_is_refused() {
    let error = size_error("/s", 10, 64);
    assert_eq!(error.kind, IoErrorKind::InvalidData);
    assert_eq!(error.message, "SHM segment /s size 10 is smaller than requested mapping 64");
    let error = size_error("/s", -1, 64);
    assert_eq!(error.message, "SHM segment /s size -1 is smaller than requested mapping 64");
}

#[test]
fn opening_walks_from_create_to_done() {
    let order = advance(OpenStep::Create, OpenEvent::Succeeded, 64);
    assert_eq!(order.next, OpenStep::Resize);
    let order = advance(OpenStep::Resize, OpenEvent::Succeeded, 64);
    assert_eq!(order.next, OpenStep::Stat { created: true });
    let order = advance(order.next, OpenEvent::Size(64), 64);
    assert_eq!(order.next, OpenStep::Mmap { created: true });
    let order = advance(order.next, OpenEvent::Succeeded, 64);
    assert_eq!(order.next, OpenStep::Done { created: true });
    assert!(order.close && !order.unlink);

    let order = advance(OpenStep::Create, OpenEvent::AlreadyExists, 64);
    assert_eq!(order.next, OpenStep::Attach);
    let order = advance(order.next, OpenEvent::Succeeded, 64);
    assert_eq!(order.next, OpenStep::Stat { created: false });
    let order = advance(order.next, OpenEvent::Size(63), 64);
    assert_eq!(order.next, OpenStep::Failed);
    assert!(order.close && !order.unlink);

    // What the attempt created, it removes again when it fails.
    let order = advance(OpenStep::Resize, OpenEvent::Refused, 64);
    assert!(order.close && order.unlink);
    let order = advance(OpenStep::Mmap { created: true }, OpenEvent::Refused, 64);
    assert!(order.close && order.unlink);
    let order = advance(OpenStep::Create, OpenEvent::Refused, 64);
    assert!(!order.close && !order.unlink);
}

#[test]
fn failures_show_their_cause() {
    let cause = IoError { kind: IoErrorKind::Os, message: String::from("Permission denied") };
    let error = Error::Io(cause.clone());
    assert_eq!(error.message(), "orbit io error: Permission denied");
    assert_eq!(error.source(), Some(&cause));
    assert!(Error::EmptyFleet.source().is_none());
    assert_eq!(
        Error::EmptyFleet.message(),
        "fleet_size must be ≥ 1; Orbit needs at least one member"
    );
    assert_eq!(
        Error::AlreadyJoined { name: "web" }.message(),
        "fleet 'web' has already been joined in this process"
    );
    assert_eq!(
        Error::EventFrameTooLarge { topic_len: 1, payload_len: 2, max_payload: 3 }.message(),
        "orbit event frame too large: topic_len=1 payload_len=2 max_payload=3"
    );
    assert_eq!(
        Error::ContestStateFull { capacity: 1024 }.message(),
        "orbit contest state table is full: capacity=1024"
    );
}

fn header(magic: u32, version: u32) -> ShmRingHeader {
    ShmRingHeader { magic, version, kind: 7, capacity: 4, write_pos: 3 }
}

fn slots(count: usize) -> Vec<ShmSlot> {
    (0..count).map(|_| ShmSlot::empty()).collect()
}

#[test]
fn segments_with_a_foreign_header_are_refused_and_stay() {
    let refuse = |header: ShmRingHeader, held: Vec<ShmSlot>| {
        let mut existing = Some(ShmSegment::from_parts(header, held.clone()));
        let error = ShmRing::open_or_create("s", 7, 4, &mut existing).err().unwrap();
        assert_eq!(error.kind, IoErrorKind::InvalidData);
        assert_eq!(existing.unwrap().into_parts(), (header, held));
        error.message
    };
    assert_eq!(
        refuse(header(0xab, VERSION), Vec::new()),
        "SHM segment s has wrong magic 0x000000AB (expected 0x4F524254)"
    );
    assert_eq!(refuse(header(MAGIC, 2), slots(4)), "SHM segment s version 2 != local 1");
}

#[test]
fn attaching_keeps_whatever_the_slots_hold() {
    // Three writes: one committed, one that its writer never finished, one torn.
    let mut held = slots(4);
    held[0].seq = 2;
    held[0].id = NetId64::make(7, 1, 0).raw();
    held[0].payload_len = 1;
    held[0].payload[0] = b'a';
    held[1].seq = 3;
    held[2].seq = 6;
    held[2].payload_len = 300;
    let before = (header(MAGIC, VERSION), held.clone());
    let mut existing = Some(ShmSegment::from_parts(before.0, held));
    let mut ring = ShmRing::open_or_create("s", 7, 4, &mut existing).ok().unwrap();
    assert!(existing.is_none());
    assert!(!ring.created());
    assert_eq!(ring.head(), 3);
    assert_eq!(&ring.read(NetId64::make(7, 1, 0)).unwrap().payload[..], b"a");
    assert!(ring.read_at(1).is_none());
    assert!(ring.read_head().is_none());
    assert!(matches!(ring.read_state_at(1), RingRead::Pending));
    assert!(matches!(ring.read_state_at(2), RingRead::Unavailable));

    // A walk delivers the first and waits for the second.
    let mut cursor = RingCursor::from_start();
    let poll = poll_ring(&ring, &mut cursor);
    assert_eq!(poll.frames.len(), 1);
    assert_eq!(cursor.next_counter(), 1);

    let id = ring.write(NodeId::new(0), 0, 0, Bytes::from_static(b"d")).unwrap();
    assert_eq!(id.counter(), 3);
    assert_eq!(&ring.read_head().unwrap().payload[..], b"d");
    let (after, kept) = ring.into_segment().into_parts();
    assert_eq!(after.write_pos, 4);
    assert_eq!(&kept[..3], &before.1[..3]);
}

#[test]
fn looks_are_repeated_while_attempts_are_left() {
    assert_eq!(READ_ATTEMPTS, 3);
    assert_eq!(after_look(None, 2), ReadStep::Retry { attempts_left: 1 });
    assert_eq!(after_look(None, 1), ReadStep::Retry { attempts_left: 0 });
    assert_eq!(after_look(None, 0), ReadStep::GiveUp);
    let mut ring = open("ts8", 5, 4);
    let id = ring.write(NodeId::new(0), 0, 0, Bytes::from_static(b"x")).unwrap();
    let step = after_look(ring.read(id), 0);
    assert!(matches!(step, ReadStep::Accept(frame) if frame.id == id));
}

#[test]
fn the_last_counter_commits_as_unwritten() {
    let last = u64::MAX / 2;
    let at = (last % 4) as usize;
    let full = ShmRingHeader { write_pos: last, ..header(MAGIC, VERSION) };
    let mut existing = Some(ShmSegment::from_parts(full, slots(4)));
    let mut ring = ShmRing::open_or_create("s", 7, 4, &mut existing).ok().unwrap();
    let id = ring.write(NodeId::new(2), 1, 5, Bytes::from_static(b"end")).unwrap();
    assert_eq!(id, NetId64::make(7, 2, last));
    assert_eq!(ring.head(), last + 1);
    assert!(ring.read_head().is_none());
    // Beyond it only a payload that would be refused anyway can be offered.
    let huge = Bytes::from(vec![0u8; PAYLOAD_MAX + 1]);
    assert!(ring.write(NodeId::new(2), 1, 5, huge).is_err());
    let (_, kept) = ring.into_segment().into_parts();
    assert_eq!((kept[at].seq, kept[at].id, kept[at].payload_len), (0, id.raw(), 3));
}
