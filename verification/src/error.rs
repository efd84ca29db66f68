//! Error type of the crate. Deliberately small: this layer has few independent
//! failure modes.

use vstd::prelude::*;

use crate::id;
use crate::id::NetId64;
use crate::text;

verus! {

/// Coarse class of a shared-memory failure.
#[derive(Clone, Copy, Debug, PartialEq, Eq, Structural)]
pub enum IoErrorKind {
    /// The caller asked for something the substrate cannot take.
    InvalidInput,
    /// The segment that was found does not hold what was asked for.
    InvalidData,
    /// The operating system refused the operation.
    Os,
}

/// A failed shared-memory operation.
#[derive(Clone, Debug, PartialEq, Eq)]
pub struct IoError {
    pub kind: IoErrorKind,
    pub message: String,
}

pub type Result<T, E = Error> = std::result::Result<T, E>;

/// What can go wrong in the fleet layers.
#[derive(Clone, Debug, PartialEq, Eq)]
pub enum Error {
    /// The same fleet was joined twice in one process.
    AlreadyJoined { name: &'static str },
    /// Fleet size cannot be zero: a fleet has at least one member.
    EmptyFleet,
    /// A node id must address one of the fleet's declared member slots.
    NodeOutsideFleet { node_id: u16, fleet_size: u8 },
    /// A cache frame could not fit into the ring payload.
    CacheFrameTooLarge { key_len: usize, value_len: usize, max_payload: usize },
    /// An event frame could not fit into the ring payload.
    EventFrameTooLarge { topic_len: usize, payload_len: usize, max_payload: usize },
    /// A contest entry could not fit into one current-state slot.
    ContestEntryTooLarge { subject_len: usize, owner_len: usize, max_payload: usize },
    /// Every slot of the contest state table carries a live subject.
    ContestStateFull { capacity: usize },
    /// A guard attempted to renew a lease that expired or was superseded.
    ContestLeaseLost { claim_id: NetId64 },
    /// The 40-bit claim counter cannot mint another fencing token.
    ContestIdExhausted,
    /// A request or a reply could not fit into its lane payload.
    RpcFrameTooLarge {
        frame: &'static str,
        method_len: usize,
        payload_len: usize,
        max_payload: usize,
    },
    /// A shared-memory operation failed.
    Io(IoError),
}

impl Error {
    /// The text shown to an operator.
    pub open spec fn spec_message(&self) -> Seq<char> {
        match *self {
            Error::AlreadyJoined { name } => "fleet '"@ + name@
                + "' has already been joined in this process"@,
            Error::EmptyFleet => "fleet_size must be ≥ 1; Orbit needs at least one member"@,
            Error::NodeOutsideFleet { node_id, fleet_size } => "node_id "@ + text::decimal(
                node_id as nat,
            ) + " is outside fleet_size "@ + text::decimal(fleet_size as nat),
            Error::CacheFrameTooLarge { key_len, value_len, max_payload } =>
                "orbit cache frame too large: key_len="@ + text::decimal(key_len as nat)
                + " value_len="@ + text::decimal(value_len as nat) + " max_payload="@
                + text::decimal(max_payload as nat),
            Error::EventFrameTooLarge { topic_len, payload_len, max_payload } =>
                "orbit event frame too large: topic_len="@ + text::decimal(topic_len as nat)
                + " payload_len="@ + text::decimal(payload_len as nat) + " max_payload="@
                + text::decimal(max_payload as nat),
            Error::ContestEntryTooLarge { subject_len, owner_len, max_payload } =>
                "orbit contest entry too large: subject_len="@ + text::decimal(subject_len as nat)
                + " owner_len="@ + text::decimal(owner_len as nat) + " max_payload="@
                + text::decimal(max_payload as nat),
            Error::ContestStateFull { capacity } =>
                "orbit contest state table is full: capacity="@ + text::decimal(capacity as nat),
            Error::ContestLeaseLost { claim_id } => "orbit contest lease "@ + id::id_text(
                claim_id.spec_raw(),
            ) + " is no longer active"@,
            Error::ContestIdExhausted => "orbit contest exhausted its 40-bit claim counter"@,
            Error::RpcFrameTooLarge { frame, method_len, payload_len, max_payload } => "orbit RPC "@
                + frame@ + " frame too large: method_len="@ + text::decimal(method_len as nat)
                + " payload_len="@ + text::decimal(payload_len as nat) + " max_payload="@
                + text::decimal(max_payload as nat),
            Error::Io(err) => "orbit io error: "@ + err.message@,
        }
    }

    /// The text shown to an operator.
    pub fn message(&self) -> (message: String)
        ensures
            message@ == self.spec_message(),
    {
        match self {
            Error::AlreadyJoined { name } => {
                let mut out = "fleet '".to_owned();
                out.append(name);
                out.append("' has already been joined in this process");
                out
            },
            Error::EmptyFleet => {
                "fleet_size must be ≥ 1; Orbit needs at least one member".to_owned()
            },
            Error::NodeOutsideFleet { node_id, fleet_size } => {
                let mut out = "node_id ".to_owned();
                text::append_decimal(&mut out, *node_id as u64);
                out.append(" is outside fleet_size ");
                text::append_decimal(&mut out, *fleet_size as u64);
                out
            },
            Error::CacheFrameTooLarge { key_len, value_len, max_payload } => {
                let mut out = "orbit cache frame too large: key_len=".to_owned();
                text::append_decimal(&mut out, *key_len as u64);
                out.append(" value_len=");
                text::append_decimal(&mut out, *value_len as u64);
                out.append(" max_payload=");
                text::append_decimal(&mut out, *max_payload as u64);
                out
            },
            Error::EventFrameTooLarge { topic_len, payload_len, max_payload } => {
                let mut out = "orbit event frame too large: topic_len=".to_owned();
                text::append_decimal(&mut out, *topic_len as u64);
                out.append(" payload_len=");
                text::append_decimal(&mut out, *payload_len as u64);
                out.append(" max_payload=");
                text::append_decimal(&mut out, *max_payload as u64);
                out
            },
            Error::ContestEntryTooLarge { subject_len, owner_len, max_payload } => {
                let mut out = "orbit contest entry too large: subject_len=".to_owned();
                text::append_decimal(&mut out, *subject_len as u64);
                out.append(" owner_len=");
                text::append_decimal(&mut out, *owner_len as u64);
                out.append(" max_payload=");
                text::append_decimal(&mut out, *max_payload as u64);
                out
            },
            Error::ContestStateFull { capacity } => {
                let mut out = "orbit contest state table is full: capacity=".to_owned();
                text::append_decimal(&mut out, *capacity as u64);
                out
            },
            Error::ContestLeaseLost { claim_id } => {
                let mut out = "orbit contest lease ".to_owned();
                let id_text = claim_id.to_text();
                out.append(id_text.as_str());
                out.append(" is no longer active");
                out
            },
            Error::ContestIdExhausted => {
                "orbit contest exhausted its 40-bit claim counter".to_owned()
            },
            Error::RpcFrameTooLarge { frame, method_len, payload_len, max_payload } => {
                let mut out = "orbit RPC ".to_owned();
                out.append(frame);
                out.append(" frame too large: method_len=");
                text::append_decimal(&mut out, *method_len as u64);
                out.append(" payload_len=");
                text::append_decimal(&mut out, *payload_len as u64);
                out.append(" max_payload=");
                text::append_decimal(&mut out, *max_payload as u64);
                out
            },
            Error::Io(err) => {
                let mut out = "orbit io error: ".to_owned();
                out.append(err.message.as_str());
                out
            },
        }
    }

    /// The shared-memory failure behind this error, where there is one.
    pub fn source(&self) -> (source: Option<&IoError>)
        ensures
            match self {
                Error::Io(err) => source == Some(err),
                _ => source is None,
            },
    {
        match self {
            Error::Io(err) => Some(err),
            _ => None,
        }
    }
}

impl vstd::std_specs::convert::FromSpecImpl<IoError> for Error {
    open spec fn obeys_from_spec() -> bool {
        true
    }

    open spec fn from_spec(value: IoError) -> Error {
        Error::Io(value)
    }
}

impl From<IoError> for Error {
    fn from(value: IoError) -> (error: Error) {
        Error::Io(value)
    }
}

} // verus!
