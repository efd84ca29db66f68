use vstd::prelude::*;

use crate::ring::{RingSpec, RingTopology};
use crate::OrbitTyped;

verus! {

/// Kind of the heartbeat ring.
pub const FLEET_HEARTBEAT_RING_KIND: u8 = 221;

/// Message class of a heartbeat sample inside the heartbeat ring.
pub const FLEET_HEARTBEAT_FRAME_KIND: u8 = 1;

/// Samples retained by the heartbeat ring.
pub const FLEET_HEARTBEAT_RING_CAPACITY: usize = 1024;

/// Marker of the heartbeat ring. A sample is its frame's identifier and version;
/// it carries no payload.
#[derive(Clone, Copy, Debug)]
pub struct FleetHeartbeatRecord;

impl OrbitTyped for FleetHeartbeatRecord {
    const KIND: u8 = FLEET_HEARTBEAT_RING_KIND;

    const CAPACITY: usize = FLEET_HEARTBEAT_RING_CAPACITY;

    const PAYLOAD_CAPACITY: usize = 0;

    const TOPOLOGY: RingTopology = RingTopology::Shared;
}

/// The layout of the heartbeat ring.
pub open spec fn heartbeat_spec() -> RingSpec {
    RingSpec {
        capacity: FLEET_HEARTBEAT_RING_CAPACITY,
        payload_capacity: 0,
        topology: RingTopology::Shared,
    }
}

/// What the marker of the heartbeat ring declares.
pub proof fn lemma_heartbeat_record()
    ensures
        FleetHeartbeatRecord::KIND == FLEET_HEARTBEAT_RING_KIND,
        RingSpec::declared::<FleetHeartbeatRecord>() == heartbeat_spec(),
        heartbeat_spec().valid(),
{
    reveal_with_fuel(vstd::arithmetic::power2::is_pow2, 11);
}

} // verus!
