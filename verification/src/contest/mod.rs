//! Small coordination primitives built on fleet state.
//!
//! These primitives do not own application policy. They provide reusable
//! fleet-visible shapes over the runtime substrate.

pub mod fence;
pub mod guard;
pub mod laws;
pub mod model;
pub mod shm;
pub mod state;
