//! Runtime-local, fleet-aware shared-memory primitives.
//!
//! Every process of a fleet is an equal member. State that should be visible
//! between members lives in fixed-capacity rings of frames (recent history) and
//! in bounded current-state tables (leases). The semantic layers on top of them
//! are caches, contests, heartbeats and request/reply messaging.

use vstd::prelude::*;

pub mod buf;
pub mod cache;
pub mod clock;
pub mod contest;
pub mod epoch;
pub mod error;
pub mod fleet;
pub mod fleet_cache;
pub mod id;
pub mod node;
pub mod orbital;
pub mod ring;
pub mod rpc;
pub mod shm;
pub mod text;

pub use cache::{
    OrbitCache, OrbitCacheEntry, OrbitCacheRead, CACHE_PAYLOAD_MAX, CACHE_RING_KIND,
};
pub use contest::fence::{Fence, FenceToken};
pub use contest::guard::{
    Claim, Contest, ContestOwner, ContestSubject, ContestType, Guard, Holder,
};
pub use contest::state::{
    CONTEST_STATE_CAPACITY, CONTEST_STATE_KIND, CONTEST_STATE_PAYLOAD_MAX,
};
pub use epoch::OrbitEpoch;
pub use error::{Error, IoError, IoErrorKind, Result};
pub use fleet::Fleet;
pub use id::{NetId64, ParseNetId64Error};
pub use node::NodeId;
pub use orbital::Orbital;
pub use ring::cursor::{poll_ring, RingCursor, RingFrameSource, RingLoss, RingPoll, RingRead};
pub use ring::{Frame, Ring, RingSpec, RingTopology};

verus! {

/// Marker for a type that has a stable wire identity across the fleet.
///
/// The constants are a contract between processes: every member that uses a
/// kind declares the same layout for it.
pub trait OrbitTyped: Clone + Send + Sync + 'static {
    /// Stable wire identifier.
    const KIND: u8;

    /// Number of slots in each lane of the ring.
    const CAPACITY: usize;

    /// Maximum payload bytes stored in each slot.
    const PAYLOAD_CAPACITY: usize;

    /// How writers publish into the ring.
    const TOPOLOGY: RingTopology;
}

} // verus!
