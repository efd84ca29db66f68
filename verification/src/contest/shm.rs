//! Shared-memory layout of the contest table.
//!
//! The segment holds a header and the slots. Mutations are serialised by a lock;
//! within it, the table is read, one operation is applied, and the table is written
//! back.

use vstd::prelude::*;

use super::state;
use crate::error::{IoError, IoErrorKind};
use crate::text;

verus! {

/// First word of a contest segment.
pub const STATE_MAGIC: u32 = 0x4F43_5354;

/// Layout version of a contest segment.
pub const STATE_VERSION: u16 = 1;

/// Bytes of the header.
pub const STATE_HEADER_SIZE: u16 = 64;

/// Bytes of one slot.
pub const STATE_SLOT_SIZE: u32 = 320;

/// The header of a contest segment.
#[derive(Clone, Copy, Debug, PartialEq, Eq, Structural)]
pub struct ContestStateHeader {
    pub magic: u32,
    pub version: u16,
    pub header_size: u16,
    pub capacity: u32,
    pub slot_size: u32,
    pub next_claim: u64,
}

/// What is wrong with the header of an existing contest segment.
pub open spec fn contest_complaint(name: Seq<char>, header: ContestStateHeader) -> Option<Seq<char>> {
    if header.magic != STATE_MAGIC {
        Some(
            "SHM segment "@ + name + " has wrong magic 0x"@ + text::hex_digits(
                header.magic as nat,
                8,
            ) + " (expected 0x"@ + text::hex_digits(STATE_MAGIC as nat, 8) + ")"@,
        )
    } else if header.version != STATE_VERSION || header.header_size != STATE_HEADER_SIZE
        || header.capacity != state::CONTEST_STATE_CAPACITY || header.slot_size
        != STATE_SLOT_SIZE {
        Some("SHM segment "@ + name + " has an incompatible Contest state layout"@)
    } else {
        None
    }
}

impl ContestStateHeader {
    /// The header of a new segment.
    pub fn new() -> (header: ContestStateHeader)
        ensures
            header.next_claim == 0,
            forall|name: Seq<char>| #[trigger] contest_complaint(name, header) is None,
    {
        ContestStateHeader {
            magic: STATE_MAGIC,
            version: STATE_VERSION,
            header_size: STATE_HEADER_SIZE,
            capacity: state::CONTEST_STATE_CAPACITY as u32,
            slot_size: STATE_SLOT_SIZE,
            next_claim: 0,
        }
    }

    /// Check the header of an existing segment before using it.
    pub fn check(&self, name: &str) -> (checked: Result<(), IoError>)
        ensures
            match checked {
                Ok(_) => contest_complaint(name@, *self) is None,
                Err(error) => {
                    &&& error.kind == IoErrorKind::InvalidData
                    &&& contest_complaint(name@, *self) == Some(error.message@)
                },
            },
    {
        let mut message = "SHM segment ".to_owned();
        message.append(name);
        if self.magic != STATE_MAGIC {
            message.append(" has wrong magic 0x");
            text::append_hex(&mut message, self.magic as u64, 8);
            message.append(" (expected 0x");
            text::append_hex(&mut message, STATE_MAGIC as u64, 8);
            message.append(")");
            return Err(IoError { kind: IoErrorKind::InvalidData, message });
        }
        if self.version != STATE_VERSION || self.header_size != STATE_HEADER_SIZE || self.capacity
            != state::CONTEST_STATE_CAPACITY as u32 || self.slot_size != STATE_SLOT_SIZE {
            message.append(" has an incompatible Contest state layout");
            return Err(IoError { kind: IoErrorKind::InvalidData, message });
        }
        Ok(())
    }
}

/// Bytes of a contest segment.
pub fn shm_segment_size() -> (size: usize)
    ensures
        size == STATE_HEADER_SIZE + state::CONTEST_STATE_CAPACITY * STATE_SLOT_SIZE,
{
    STATE_HEADER_SIZE as usize + state::CONTEST_STATE_CAPACITY * STATE_SLOT_SIZE as usize
}

/// A segment is used exactly where its header has the mark of a contest segment and the
/// layout of this version, whatever its claim counter says.
pub proof fn law_only_contest_segments_are_used(name: Seq<char>, header: ContestStateHeader)
    ensures
        contest_complaint(name, header) is None <==> header.magic == 0x4F43_5354 && header.version
            == 1 && header.header_size == 64 && header.capacity == 1024 && header.slot_size == 320,
{
}

} // verus!
