//! Wire format of a cache mutation.
//!
//! ```text
//! [ op:u8 ][ key_len:u16 LE ][ value_len:u16 LE ][ expires_at_ms:u64 LE ]
//! [ key bytes ][ value bytes ]
//! ```

use bytes::Bytes;
use vstd::prelude::*;

use crate::buf;
use crate::error::{Error, Result};

verus! {

/// Cache frame payload limit.
pub const CACHE_PAYLOAD_MAX: usize = 256;

/// Bytes in front of the key.
pub const HEADER_LEN: usize = 13;

/// Store a value.
pub const OP_PUT: u8 = 1;

/// Drop a key.
pub const OP_DELETE: u8 = 2;

/// Drop every key with a prefix.
pub const OP_RESET: u8 = 3;

/// A cache mutation, as values.
#[verifier::ext_equal]
pub struct MutationView {
    pub op: u8,
    pub key: Seq<u8>,
    pub value: Seq<u8>,
    pub expires_at_ms: u64,
}

/// Whether a mutation fits into one frame.
pub open spec fn frame_fits(key: Seq<u8>, value: Seq<u8>) -> bool {
    HEADER_LEN + key.len() + value.len() <= CACHE_PAYLOAD_MAX
}

/// The refusal of a mutation that does not fit into one frame.
pub open spec fn frame_error(key: Seq<u8>, value: Seq<u8>) -> Error {
    Error::CacheFrameTooLarge {
        key_len: key.len() as usize,
        value_len: value.len() as usize,
        max_payload: CACHE_PAYLOAD_MAX,
    }
}

/// The bytes of a mutation.
pub open spec fn encoded(mutation: MutationView) -> Seq<u8> {
    seq![mutation.op] + buf::le_bytes(mutation.key.len(), 2) + buf::le_bytes(
        mutation.value.len(),
        2,
    ) + buf::le_bytes(mutation.expires_at_ms as nat, 8) + mutation.key + mutation.value
}

/// The mutation that bytes stand for, if they are long enough for the lengths
/// they declare. Bytes behind the value are ignored.
pub open spec fn decoded(payload: Seq<u8>) -> Option<MutationView> {
    if payload.len() < HEADER_LEN {
        None
    } else {
        let key_end = HEADER_LEN + buf::le_value(payload.subrange(1, 3));
        let value_end = key_end + buf::le_value(payload.subrange(3, 5));
        if payload.len() < value_end {
            None
        } else {
            Some(
                MutationView {
                    op: payload[0],
                    key: payload.subrange(HEADER_LEN as int, key_end),
                    value: payload.subrange(key_end, value_end),
                    expires_at_ms: buf::le_value(payload.subrange(5, 13)) as u64,
                },
            )
        }
    }
}

/// Where the parts of a decoded frame lie.
pub struct DecodedFrame {
    pub op: u8,
    pub key_end: usize,
    pub value_end: usize,
    pub expires_at_ms: u64,
}

impl DecodedFrame {
    /// The mutation that this says lies in `payload`.
    pub open spec fn mutation(self, payload: Seq<u8>) -> MutationView {
        MutationView {
            op: self.op,
            key: payload.subrange(HEADER_LEN as int, self.key_end as int),
            value: payload.subrange(self.key_end as int, self.value_end as int),
            expires_at_ms: self.expires_at_ms,
        }
    }
}

/// Encode a mutation.
pub fn encode_frame(op: u8, key: &[u8], value: &[u8], expires_at_ms: u64) -> (frame: Result<Bytes>)
    ensures
        match frame {
            Ok(bytes) => frame_fits(key@, value@) && buf::bytes_contents(bytes) == encoded(
                MutationView { op, key: key@, value: value@, expires_at_ms },
            ) && buf::bytes_contents(bytes).len() <= CACHE_PAYLOAD_MAX,
            Err(error) => !frame_fits(key@, value@) && error == frame_error(key@, value@),
        },
{
    if key.len() > u16::MAX as usize || value.len() > u16::MAX as usize || key.len() + value.len()
        > CACHE_PAYLOAD_MAX - HEADER_LEN {
        return Err(
            Error::CacheFrameTooLarge {
                key_len: key.len(),
                value_len: value.len(),
                max_payload: CACHE_PAYLOAD_MAX,
            },
        );
    }
    let total: usize = HEADER_LEN + key.len() + value.len();
    proof {
        buf::lemma_byte_spans();
        buf::lemma_le_round_trip(key@.len(), 2);
        buf::lemma_le_round_trip(value@.len(), 2);
        buf::lemma_le_round_trip(expires_at_ms as nat, 8);
    }
    let mut out = buf::buf_with_capacity(total);
    buf::buf_put_u8(&mut out, op);
    buf::buf_put_u16_le(&mut out, key.len() as u16);
    buf::buf_put_u16_le(&mut out, value.len() as u16);
    buf::buf_put_u64_le(&mut out, expires_at_ms);
    buf::buf_put_slice(&mut out, key);
    buf::buf_put_slice(&mut out, value);
    proof {
        assert(buf::buf_contents(out) =~= encoded(
            MutationView { op, key: key@, value: value@, expires_at_ms },
        ));
    }
    Ok(buf::buf_freeze(out))
}

/// Decode a mutation.
pub fn decode_frame(payload: &Bytes) -> (frame: Option<DecodedFrame>)
    ensures
        match frame {
            Some(frame) => {
                &&& decoded(buf::bytes_contents(*payload)) == Some(
                    frame.mutation(buf::bytes_contents(*payload)),
                )
                &&& HEADER_LEN <= frame.key_end <= frame.value_end <= buf::bytes_contents(
                    *payload,
                ).len()
            },
            None => decoded(buf::bytes_contents(*payload)) is None,
        },
{
    let data = buf::bytes_as_slice(payload);
    if data.len() < HEADER_LEN {
        return None;
    }
    proof {
        buf::lemma_byte_spans();
    }
    let op: u8 = data[0];
    let key_len: usize = buf::read_le(data, 1, 2) as usize;
    let value_len: usize = buf::read_le(data, 3, 2) as usize;
    let expires_at_ms: u64 = buf::read_le(data, 5, 8);
    let key_end: usize = HEADER_LEN + key_len;
    let value_end: usize = key_end + value_len;
    if data.len() < value_end {
        return None;
    }
    Some(DecodedFrame { op, key_end, value_end, expires_at_ms })
}

/// Decoding gives back what was encoded.
pub proof fn law_cache_frames_round_trip(mutation: MutationView)
    requires
        frame_fits(mutation.key, mutation.value),
    ensures
        decoded(encoded(mutation)) == Some(mutation),
        encoded(mutation).len() == HEADER_LEN + mutation.key.len() + mutation.value.len(),
{
    let bytes = encoded(mutation);
    let key_len = mutation.key.len();
    let value_len = mutation.value.len();
    buf::lemma_byte_spans();
    buf::lemma_le_round_trip(key_len, 2);
    buf::lemma_le_round_trip(value_len, 2);
    buf::lemma_le_round_trip(mutation.expires_at_ms as nat, 8);
    assert(bytes.subrange(1, 3) =~= buf::le_bytes(key_len, 2));
    assert(bytes.subrange(3, 5) =~= buf::le_bytes(value_len, 2));
    assert(bytes.subrange(5, 13) =~= buf::le_bytes(mutation.expires_at_ms as nat, 8));
    assert(bytes.subrange(13, 13 + key_len as int) =~= mutation.key);
    assert(bytes.subrange(13 + key_len as int, (13 + key_len + value_len) as int) =~= mutation.value);
}

/// Where the parts of a mutation lie: the operation in the first byte, the lengths of
/// the key and the value in the next two pairs, the expiry in the eight bytes behind
/// them, and then the key and the value, with nothing between or behind.
pub proof fn law_the_layout_of_cache_frames(mutation: MutationView)
    requires
        mutation.key.len() <= u16::MAX,
        mutation.value.len() <= u16::MAX,
    ensures
        ({
            let bytes = encoded(mutation);
            let key_end = 13 + mutation.key.len() as int;
            &&& bytes.len() == key_end + mutation.value.len()
            &&& bytes[0] == mutation.op
            &&& buf::le_value(bytes.subrange(1, 3)) == mutation.key.len()
            &&& buf::le_value(bytes.subrange(3, 5)) == mutation.value.len()
            &&& buf::le_value(bytes.subrange(5, 13)) == mutation.expires_at_ms
            &&& bytes.subrange(13, key_end) == mutation.key
            &&& bytes.subrange(key_end, bytes.len() as int) == mutation.value
        }),
{
    let bytes = encoded(mutation);
    let key_end = 13 + mutation.key.len() as int;
    buf::lemma_byte_spans();
    buf::lemma_le_round_trip(mutation.key.len(), 2);
    buf::lemma_le_round_trip(mutation.value.len(), 2);
    buf::lemma_le_round_trip(mutation.expires_at_ms as nat, 8);
    assert(bytes.subrange(1, 3) =~= buf::le_bytes(mutation.key.len(), 2));
    assert(bytes.subrange(3, 5) =~= buf::le_bytes(mutation.value.len(), 2));
    assert(bytes.subrange(5, 13) =~= buf::le_bytes(mutation.expires_at_ms as nat, 8));
    assert(bytes.subrange(13, key_end) =~= mutation.key);
    assert(bytes.subrange(key_end, bytes.len() as int) =~= mutation.value);
}

/// Bytes are read as a mutation exactly where they begin with its encoding: whatever
/// follows is ignored, and nothing else is a mutation.
pub proof fn law_only_encoded_mutations_are_read(payload: Seq<u8>, mutation: MutationView)
    requires
        mutation.key.len() <= u16::MAX,
        mutation.value.len() <= u16::MAX,
    ensures
        decoded(payload) == Some(mutation) <==> encoded(mutation).is_prefix_of(payload),
        payload.len() < 13 ==> decoded(payload) is None,
        decoded(payload) matches Some(read) ==> read.key.len() <= u16::MAX && read.value.len()
            <= u16::MAX && encoded(read).is_prefix_of(payload),
{
    let bytes = encoded(mutation);
    law_the_layout_of_cache_frames(mutation);
    if bytes.is_prefix_of(payload) {
        assert(payload.subrange(0, bytes.len() as int) =~= bytes);
        assert(payload[0] == bytes[0]);
        assert(payload.subrange(1, 3) =~= bytes.subrange(1, 3));
        assert(payload.subrange(3, 5) =~= bytes.subrange(3, 5));
        assert(payload.subrange(5, 13) =~= bytes.subrange(5, 13));
        let key_end = 13 + mutation.key.len() as int;
        assert(payload.subrange(13, key_end) =~= bytes.subrange(13, key_end));
        assert(payload.subrange(key_end, bytes.len() as int) =~= bytes.subrange(
            key_end,
            bytes.len() as int,
        ));
    }
    if let Some(read) = decoded(payload) {
        buf::lemma_byte_spans();
        buf::lemma_le_value_bound(payload.subrange(1, 3));
        buf::lemma_le_value_bound(payload.subrange(3, 5));
        buf::lemma_le_value_bound(payload.subrange(5, 13));
        buf::lemma_le_bytes_of_value(payload.subrange(1, 3));
        buf::lemma_le_bytes_of_value(payload.subrange(3, 5));
        buf::lemma_le_bytes_of_value(payload.subrange(5, 13));
        assert(encoded(read) =~= payload.subrange(0, encoded(read).len() as int));
    }
}

/// A mutation fits into one frame exactly where its thirteen header bytes, its key and
/// its value have at most 256 bytes together.
pub proof fn law_cache_frames_are_bounded(key: Seq<u8>, value: Seq<u8>)
    ensures
        frame_fits(key, value) <==> 13 + key.len() + value.len() <= 256,
        frame_error(key, value) == (Error::CacheFrameTooLarge {
            key_len: key.len() as usize,
            value_len: value.len() as usize,
            max_payload: 256,
        }),
{
}

} // verus!
