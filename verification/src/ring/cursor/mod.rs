//! Cursor and walking primitives for rings.
//!
//! This module owns the generic walk from a cursor toward the head that every
//! ring reader shares. Semantic layers decode frames after this layer has dealt
//! with wraparound, in-flight slots, loss and cursor advance.

pub mod poll;
pub mod source;
pub mod state;
pub mod walk;

pub use poll::{RingLoss, RingPoll, RingPollView};
pub use source::{RingFrameSource, RingRead, RingReadView};
pub use state::RingCursor;
pub use walk::poll_ring;
