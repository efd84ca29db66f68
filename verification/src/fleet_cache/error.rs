use vstd::prelude::*;

use crate::error::IoError;
use crate::text;

verus! {

pub type Result<T, E = Error> = std::result::Result<T, E>;

/// What can go wrong in the fleet cache.
#[derive(Clone, Debug, PartialEq, Eq)]
pub enum Error {
    KeyTooLarge { key_len: usize, max: usize },
    ValueTooLarge { value_len: usize, max: usize },
    InvalidLayout(&'static str),
    Io(IoError),
}

impl Error {
    /// The text shown to an operator.
    pub open spec fn spec_message(&self) -> Seq<char> {
        match *self {
            Error::KeyTooLarge { key_len, max } => "cache key is too large: "@ + text::decimal(
                key_len as nat,
            ) + " > "@ + text::decimal(max as nat),
            Error::ValueTooLarge { value_len, max } => "cache value is too large: "@
                + text::decimal(value_len as nat) + " > "@ + text::decimal(max as nat),
            Error::InvalidLayout(message) => "invalid cache layout: "@ + message@,
            Error::Io(error) => "orbit cache io error: "@ + error.message@,
        }
    }

    /// The text shown to an operator.
    pub fn message(&self) -> (message: String)
        ensures
            message@ == self.spec_message(),
    {
        match self {
            Error::KeyTooLarge { key_len, max } => {
                let mut out = "cache key is too large: ".to_owned();
                text::append_decimal(&mut out, *key_len as u64);
                out.append(" > ");
                text::append_decimal(&mut out, *max as u64);
                out
            },
            Error::ValueTooLarge { value_len, max } => {
                let mut out = "cache value is too large: ".to_owned();
                text::append_decimal(&mut out, *value_len as u64);
                out.append(" > ");
                text::append_decimal(&mut out, *max as u64);
                out
            },
            Error::InvalidLayout(message) => {
                let mut out = "invalid cache layout: ".to_owned();
                out.append(message);
                out
            },
            Error::Io(error) => {
                let mut out = "orbit cache io error: ".to_owned();
                out.append(error.message.as_str());
                out
            },
        }
    }

    /// The shared-memory failure behind this error, where there is one.
    pub fn source(&self) -> (source: Option<&IoError>)
        ensures
            match self {
                Error::Io(err) => source == Some(err),
                _ => source is None,
            },
    {
        match self {
            Error::Io(err) => Some(err),
            _ => None,
        }
    }
}

impl vstd::std_specs::convert::FromSpecImpl<IoError> for Error {
    open spec fn obeys_from_spec() -> bool {
        true
    }

    open spec fn from_spec(value: IoError) -> Error {
        Error::Io(value)
    }
}

impl From<IoError> for Error {
    fn from(value: IoError) -> (error: Error) {
        Error::Io(value)
    }
}

} // verus!
