//! Fleet-level heartbeat over a ring.
//!
//! This is a substrate signal: it shows that a member is still publishing into
//! the shared fleet fabric. It is not process supervision and does not replace a
//! runtime's own worker-health mechanism.

pub mod record;
pub mod sample;
pub mod snapshot;

pub use record::{FleetHeartbeatRecord, FLEET_HEARTBEAT_FRAME_KIND, FLEET_HEARTBEAT_RING_KIND};
pub use sample::FleetHeartbeat;
pub use snapshot::FleetHeartbeatSnapshot;
