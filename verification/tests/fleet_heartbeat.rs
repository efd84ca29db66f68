//! Fleet heartbeats.

use std::time::Duration;

use bytes::Bytes;
use orbit::fleet::heartbeat::FleetHeartbeat;
use orbit::{Fleet, Frame, NetId64, NodeId, OrbitEpoch};

#[test]
fn heartbeat_keeps_latest_sample_for_node() {
    let mut fleet = Fleet::join_as("hb", 2, NodeId::new(1)).ok().expect("join fleet");

    let first = fleet.publish_heartbeat_at(OrbitEpoch::from_unix_ms(100));
    let second = fleet.publish_heartbeat_at(OrbitEpoch::from_unix_ms(250));

    assert_eq!(first.node_id, NodeId::new(1));
    assert_eq!(second.node_id, NodeId::new(1));

    let latest = fleet.latest_heartbeats();
    assert_eq!(latest.len(), 1);
    assert_eq!(latest[0].node_id, NodeId::new(1));
    assert_eq!(latest[0].captured_at, OrbitEpoch::from_unix_ms(250));
    assert_eq!(latest[0].counter(), second.counter());
}

#[test]
fn heartbeat_snapshot_marks_missing_and_stale_nodes() {
    let mut fleet = Fleet::join_as("hb", 3, NodeId::new(2)).ok().expect("join fleet");
    fleet.publish_heartbeat_at(OrbitEpoch::from_unix_ms(1_000));

    let max_age = Duration::from_millis(750).as_millis();
    let fresh = fleet.heartbeat_snapshot_at(OrbitEpoch::from_unix_ms(1_500), max_age);
    assert_eq!(fresh.missing_node_ids, vec![NodeId::new(0), NodeId::new(1)]);
    assert!(fresh.stale_node_ids.is_empty());
    assert_eq!(
        Duration::from_millis(fresh.latest[0].age_at(fresh.now)),
        Duration::from_millis(500)
    );

    let stale = fleet.heartbeat_snapshot_at(OrbitEpoch::from_unix_ms(2_000), max_age);
    assert_eq!(stale.stale_node_ids, vec![NodeId::new(2)]);
}

#[test]
fn orbit_epoch_age_is_saturating() {
    let captured = OrbitEpoch::from_unix_ms(2_000);
    let earlier_now = OrbitEpoch::from_unix_ms(1_000);

    assert_eq!(Duration::from_millis(captured.age_at(earlier_now)), Duration::ZERO);
}

#[test]
fn a_sample_is_fresh_up_to_its_age_limit() {
    let captured = OrbitEpoch::from_unix_ms(1_000);
    assert!(captured.is_fresh_at(OrbitEpoch::from_unix_ms(1_750), 750));
    assert!(!captured.is_fresh_at(OrbitEpoch::from_unix_ms(1_751), 750));
    assert!(captured.is_fresh_at(OrbitEpoch::from_unix_ms(500), 0));
    assert_eq!(captured.as_unix_ms(), 1_000);
    assert_eq!(captured.age_at(OrbitEpoch::from_unix_ms(1_500)), 500);
}

#[test]
fn the_clock_stands_after_the_epoch() {
    let mut fleet = Fleet::join("hb_now", 1).ok().expect("join fleet");
    let sample = fleet.publish_heartbeat();
    assert!(sample.captured_at.as_unix_ms() > 1_600_000_000_000);
    let snapshot = fleet.heartbeat_snapshot(60_000);
    assert!(snapshot.missing_node_ids.is_empty());
    assert!(snapshot.stale_node_ids.is_empty());
    assert!(OrbitEpoch::now().as_unix_ms() >= sample.captured_at.as_unix_ms());
}

#[test]
fn every_member_is_heard_of_once() {
    let mut first = Fleet::join_as("hb_all", 2, NodeId::new(0)).ok().expect("join fleet");
    assert!(first.can_heartbeat());
    first.publish_heartbeat_at(OrbitEpoch::from_unix_ms(10));
    let mut second = Fleet::attach(first.detach(), NodeId::new(1)).ok().expect("attach");
    second.publish_heartbeat_at(OrbitEpoch::from_unix_ms(20));
    second.publish_heartbeat_at(OrbitEpoch::from_unix_ms(30));

    let latest = second.latest_heartbeats();
    assert_eq!(latest.len(), 2);
    assert_eq!(latest[0].node_id, NodeId::new(0));
    assert_eq!(latest[1].node_id, NodeId::new(1));
    assert_eq!(latest[1].captured_at, OrbitEpoch::from_unix_ms(30));
    let snapshot = second.heartbeat_snapshot_at(OrbitEpoch::from_unix_ms(40), 15);
    assert!(snapshot.missing_node_ids.is_empty());
    assert_eq!(snapshot.stale_node_ids, vec![NodeId::new(0)]);
}

#[test]
fn only_heartbeat_frames_are_samples() {
    let frame = |kind: u8, message: u8| Frame {
        id: NetId64::make(kind, 1, 4),
        kind: message,
        ver: 77,
        payload: Bytes::new(),
    };
    let sample = FleetHeartbeat::from_frame(&frame(221, 1)).expect("a heartbeat");
    assert_eq!(sample.node_id, NodeId::new(1));
    assert_eq!(sample.captured_at, OrbitEpoch::from_unix_ms(77));
    assert_eq!(sample.counter(), 4);
    assert!(FleetHeartbeat::from_frame(&frame(221, 2)).is_none());
}
