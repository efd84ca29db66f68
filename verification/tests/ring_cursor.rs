//! Walking rings with cursors.

use bytes::Bytes;
use orbit::ring::cursor::RingReadView;
use orbit::ring::FrameView;
use orbit::{
    poll_ring, Fleet, Frame, NetId64, NodeId, OrbitTyped, Ring, RingCursor, RingFrameSource,
    RingLoss, RingPoll, RingRead, RingSpec, RingTopology,
};

#[derive(Clone, Debug)]
struct CursorRecord;

impl OrbitTyped for CursorRecord {
    const KIND: u8 = 31;
    const CAPACITY: usize = 4;
    const PAYLOAD_CAPACITY: usize = 256;
    const TOPOLOGY: RingTopology = RingTopology::Shared;
}

#[derive(Clone, Debug)]
struct SmallWindowRecord;

impl OrbitTyped for SmallWindowRecord {
    const KIND: u8 = 32;
    const CAPACITY: usize = 2;
    const PAYLOAD_CAPACITY: usize = 256;
    const TOPOLOGY: RingTopology = RingTopology::Shared;
}

#[derive(Clone, Debug)]
struct LaneRecord;

impl OrbitTyped for LaneRecord {
    const KIND: u8 = 34;
    const CAPACITY: usize = 4;
    const PAYLOAD_CAPACITY: usize = 256;
    const TOPOLOGY: RingTopology = RingTopology::PerNode;
}

#[derive(Clone, Debug)]
struct OrderedRecord;

impl OrbitTyped for OrderedRecord {
    const KIND: u8 = 33;
    const CAPACITY: usize = 4;
    const PAYLOAD_CAPACITY: usize = 16;
    const TOPOLOGY: RingTopology = RingTopology::SharedOrdered;
}

#[test]
fn cursor_from_start_reads_available_history() {
    let mut ring = Ring::new::<CursorRecord>();
    ring.write(NodeId::new(0), 0, 0, Bytes::from_static(b"a"));
    ring.write(NodeId::new(0), 0, 0, Bytes::from_static(b"b"));

    let mut cursor = RingCursor::from_start();
    let poll = poll_ring(&ring, &mut cursor);

    assert_eq!(poll.loss.total(), 0);
    assert_eq!(poll.frames.len(), 2);
    assert_eq!(&poll.frames[0].payload[..], b"a");
    assert_eq!(&poll.frames[1].payload[..], b"b");
    assert_eq!(cursor.next_counter(), 2);
    assert!(poll_ring(&ring, &mut cursor).is_empty());
}

#[test]
fn cursor_at_head_only_reads_future_frames() {
    let mut fleet = Fleet::join("cursor_head", 1).ok().expect("fleet");
    fleet.publish::<CursorRecord>(0, 0, Bytes::from_static(b"old"));
    let mut cursor = fleet.cursor_at_head::<CursorRecord>();
    fleet.publish::<CursorRecord>(0, 0, Bytes::from_static(b"new"));

    let poll = fleet.poll_ring::<CursorRecord>(&mut cursor);

    assert_eq!(poll.loss.total(), 0);
    assert_eq!(poll.frames.len(), 1);
    assert_eq!(&poll.frames[0].payload[..], b"new");
    assert_eq!(cursor.next_counter(), 2);
}

#[test]
fn lagged_cursor_reports_overwritten_window() {
    let mut fleet = Fleet::join("cursor_lag", 1).ok().expect("fleet");
    let mut cursor = fleet.cursor_from_start::<SmallWindowRecord>();

    fleet.publish::<SmallWindowRecord>(0, 0, Bytes::from_static(b"one"));
    fleet.publish::<SmallWindowRecord>(0, 0, Bytes::from_static(b"two"));
    fleet.publish::<SmallWindowRecord>(0, 0, Bytes::from_static(b"three"));

    let poll = fleet.poll_ring::<SmallWindowRecord>(&mut cursor);

    assert_eq!(poll.loss.overwritten, 1);
    assert_eq!(poll.loss.unavailable, 0);
    assert_eq!(poll.frames.len(), 2);
    assert_eq!(&poll.frames[0].payload[..], b"two");
    assert_eq!(&poll.frames[1].payload[..], b"three");
    assert_eq!(cursor.next_counter(), 3);
}

struct SparseSource {
    frames: Vec<Option<Frame>>,
    pending_from: u64,
}

// The specification functions of the trait have no run-time meaning.
impl RingFrameSource for SparseSource {
    fn source_wf(&self) -> bool {
        unreachable!()
    }

    fn source_kind(&self) -> u8 {
        unreachable!()
    }

    fn source_head(&self) -> u64 {
        unreachable!()
    }

    fn source_capacity(&self) -> usize {
        unreachable!()
    }

    fn source_read_at(&self, _counter: u64) -> Option<FrameView> {
        unreachable!()
    }

    fn source_state_at(&self, _counter: u64) -> RingReadView {
        unreachable!()
    }

    fn kind(&self) -> u8 {
        CursorRecord::KIND
    }

    fn head(&self) -> u64 {
        3
    }

    fn capacity(&self) -> usize {
        3
    }

    fn read_at(&self, counter: u64) -> Option<Frame> {
        self.frames.get(counter as usize).cloned().flatten()
    }

    fn read_state_at(&self, counter: u64) -> RingRead {
        if counter >= self.pending_from {
            return RingRead::Pending;
        }
        RingRead::from_slot(self.read_at(counter))
    }
}

fn frame_at(counter: u64, payload: &'static [u8]) -> Frame {
    Frame {
        id: NetId64::make(CursorRecord::KIND, 0, counter),
        kind: 0,
        ver: 0,
        payload: Bytes::from_static(payload),
    }
}

#[test]
fn missing_or_unexpected_slots_report_unavailable() {
    let source = SparseSource {
        frames: vec![Some(frame_at(0, b"ok")), None, Some(frame_at(99, b"wrapped"))],
        pending_from: u64::MAX,
    };
    let mut cursor = RingCursor::from_start();

    let poll = poll_ring(&source, &mut cursor);

    assert_eq!(poll.loss.overwritten, 0);
    assert_eq!(poll.loss.unavailable, 2);
    assert_eq!(poll.frames.len(), 1);
    assert_eq!(&poll.frames[0].payload[..], b"ok");
    assert_eq!(cursor.next_counter(), 3);
}

#[test]
fn a_walk_stops_in_front_of_a_write_in_flight() {
    let source = SparseSource {
        frames: vec![Some(frame_at(0, b"ok")), None, None],
        pending_from: 1,
    };
    let mut cursor = RingCursor::from_start();

    let poll = poll_ring(&source, &mut cursor);

    assert_eq!(poll.frames.len(), 1);
    assert!(poll.loss.is_empty());
    assert_eq!(cursor.next_counter(), 1);
}

#[test]
fn frames_of_another_kind_are_unavailable() {
    let mut foreign = frame_at(1, b"foreign");
    foreign.id = NetId64::make(99, 0, 1);
    let source = SparseSource {
        frames: vec![Some(frame_at(0, b"a")), Some(foreign), Some(frame_at(2, b"c"))],
        pending_from: u64::MAX,
    };
    let mut cursor = RingCursor::from_start();
    let poll = poll_ring(&source, &mut cursor);
    assert_eq!(poll.frames.len(), 2);
    assert_eq!(&poll.frames[1].payload[..], b"c");
    assert_eq!(poll.loss, RingLoss { overwritten: 0, unavailable: 1 });
}

#[test]
fn every_counter_of_a_walk_is_accounted_for() {
    let mut ring = Ring::new::<CursorRecord>();
    for i in 0..11u8 {
        ring.write(NodeId::new(0), 0, 0, Bytes::from(vec![i]));
    }
    let mut cursor = RingCursor::from_counter(2);
    let poll = poll_ring(&ring, &mut cursor);
    assert_eq!(poll.from_counter, 2);
    assert_eq!(poll.to_counter, 11);
    assert_eq!(poll.loss.overwritten, 5);
    assert_eq!(poll.frames.len(), 4);
    assert_eq!(
        poll.to_counter - poll.from_counter,
        poll.frames.len() as u64 + poll.loss.total()
    );
    let payloads: Vec<u8> = poll.frames.iter().map(|frame| frame.payload[0]).collect();
    assert_eq!(payloads, vec![7, 8, 9, 10]);
}

#[test]
fn a_cursor_ahead_of_the_head_sees_nothing() {
    let mut ring = Ring::new::<CursorRecord>();
    ring.write(NodeId::new(0), 0, 0, Bytes::from_static(b"a"));
    let mut cursor = RingCursor::from_counter(5);
    let poll = poll_ring(&ring, &mut cursor);
    assert!(poll.is_empty());
    assert!(poll.frames.is_empty());
}

#[test]
fn loss_totals_saturate() {
    let loss = RingLoss { overwritten: u64::MAX, unavailable: 1 };
    assert_eq!(loss.total(), u64::MAX);
    assert!(!loss.is_empty());
    assert!(RingLoss::default().is_empty());
    assert!(RingPoll::default().is_empty());
}

#[test]
fn positions_read_as_ready_pending_or_unavailable() {
    let mut ring = Ring::new::<CursorRecord>();
    for i in 0..6u8 {
        ring.write(NodeId::new(3), 1, 2, Bytes::from(vec![i]));
    }
    assert!(matches!(ring.read_state_at(1), RingRead::Unavailable));
    assert!(matches!(ring.read_state_at(6), RingRead::Pending));
    let RingRead::Ready(frame) = ring.read_state_at(4) else {
        panic!("a retained position is ready");
    };
    assert_eq!(frame.id, NetId64::make(31, 3, 4));
    assert!(ring.read_at(1).is_none() || ring.read_at(1).unwrap().id.counter() == 5);
    ring.reset();
    assert_eq!(ring.head(), 0);
    assert!(ring.read_head().is_none());
}

#[test]
fn ring_layouts_are_checked() {
    assert!(RingSpec::new(4, 256).is_valid());
    assert!(!RingSpec::new(0, 256).is_valid());
    assert!(!RingSpec::new(3, 256).is_valid());
    assert_eq!(RingSpec::new(4, 256).topology, RingTopology::Shared);
    assert_eq!(RingSpec::per_node(4, 256).topology, RingTopology::PerNode);
    assert_eq!(RingSpec::shared_ordered(4, 8).topology, RingTopology::SharedOrdered);
    let ring = Ring::with_spec(5, RingSpec::shared_ordered(8, 16));
    assert_eq!(ring.kind(), 5);
    assert_eq!(ring.capacity(), 8);
    assert_eq!(ring.payload_capacity(), 16);
    assert_eq!(ring.spec(), RingSpec::shared_ordered(8, 16));
}

#[test]
fn lanes_are_polled_together() {
    let mut first = Fleet::join_as("lanes", 2, NodeId::new(0)).ok().unwrap();
    let mut cursor = first.lane_cursor_at_head::<LaneRecord>();
    first.publish::<LaneRecord>(0, 0, Bytes::from_static(b"zero"));
    let mut second = Fleet::attach(first.detach(), NodeId::new(1)).ok().unwrap();
    second.publish::<LaneRecord>(0, 0, Bytes::from_static(b"one"));

    let poll = second.poll_lanes::<LaneRecord>(&mut cursor);
    assert_eq!(poll.frames.len(), 2);
    assert_eq!(&poll.frames[0].payload[..], b"zero");
    assert_eq!(&poll.frames[1].payload[..], b"one");
    assert!(poll.loss.is_empty());
    assert!(second.poll_lanes::<LaneRecord>(&mut cursor).frames.is_empty());
}

#[test]
fn a_shared_ring_keeps_one_order() {
    let mut first = Fleet::join_as("ordered", 2, NodeId::new(0)).ok().unwrap();
    let a = first.publish::<OrderedRecord>(0, 0, Bytes::from_static(b"a"));
    let mut second = Fleet::attach(first.detach(), NodeId::new(1)).ok().unwrap();
    let b = second.publish::<OrderedRecord>(0, 0, Bytes::from_static(b"b"));
    assert_eq!(a.counter(), 0);
    assert_eq!(b.counter(), 1);
    assert_eq!(b.node(), 1);
    assert_eq!(second.lane_len::<OrderedRecord>(), 1);
}
