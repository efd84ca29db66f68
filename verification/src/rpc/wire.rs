//! Wire format of requests and replies.
//!
//! ```text
//! request: [ version:u8 ][ target:u16 LE ][ method_len:u16 LE ][ payload_len:u32 LE ]
//!          [ method bytes ][ payload bytes ]
//! reply:   [ version:u8 ][ outcome:u8 ][ request_id:u64 LE ][ payload_len:u32 LE ]
//!          [ payload bytes ]
//! ```

use bytes::Bytes;
use vstd::prelude::*;

use super::Lane;
use crate::buf;
use crate::error::{Error, Result};
use crate::id;
use crate::id::NetId64;
use crate::node::NodeId;
use crate::text;

verus! {

/// Version byte of both formats.
pub const PROTOCOL_VERSION: u8 = 1;

/// Bytes in front of a request's method.
pub const REQUEST_HEADER_LEN: usize = 9;

/// Bytes in front of a reply's payload.
pub const REPLY_HEADER_LEN: usize = 14;

/// Terminal outcome reported by a handler.
#[derive(Clone, Copy, Debug, PartialEq, Eq, Structural)]
pub enum Outcome {
    Completed,
    Rejected,
    Failed,
}

impl Outcome {
    /// The byte that stands for an outcome.
    pub open spec fn spec_to_wire(self) -> u8 {
        match self {
            Outcome::Completed => 1,
            Outcome::Rejected => 2,
            Outcome::Failed => 3,
        }
    }

    /// The outcome that a byte stands for.
    pub open spec fn spec_from_wire(value: u8) -> Option<Outcome> {
        if value == 1 {
            Some(Outcome::Completed)
        } else if value == 2 {
            Some(Outcome::Rejected)
        } else if value == 3 {
            Some(Outcome::Failed)
        } else {
            None
        }
    }

    /// The byte that stands for this outcome.
    #[verifier::when_used_as_spec(spec_to_wire)]
    pub fn to_wire(self) -> (value: u8)
        ensures
            value == self.spec_to_wire(),
    {
        match self {
            Outcome::Completed => 1,
            Outcome::Rejected => 2,
            Outcome::Failed => 3,
        }
    }

    /// The outcome that a byte stands for.
    pub fn from_wire(value: u8) -> (outcome: Option<Outcome>)
        ensures
            outcome == Outcome::spec_from_wire(value),
    {
        if value == 1 {
            Some(Outcome::Completed)
        } else if value == 2 {
            Some(Outcome::Rejected)
        } else if value == 3 {
            Some(Outcome::Failed)
        } else {
            None
        }
    }
}

/// A request, as values.
#[verifier::ext_equal]
pub struct RequestView {
    pub target: u16,
    pub method: Seq<char>,
    pub payload: Seq<u8>,
}

/// A reply, as values.
#[verifier::ext_equal]
pub struct ReplyView {
    pub request_id: NetId64,
    pub outcome: Outcome,
    pub payload: Seq<u8>,
}

/// Whether a request fits into a frame of at most `max_payload` bytes.
pub open spec fn request_fits(method: Seq<u8>, payload: Seq<u8>, max_payload: usize) -> bool {
    &&& method.len() <= u16::MAX
    &&& payload.len() <= u32::MAX
    &&& REQUEST_HEADER_LEN + method.len() + payload.len() <= max_payload
}

/// Whether a reply fits into a frame of at most `max_payload` bytes.
pub open spec fn reply_fits(payload: Seq<u8>, max_payload: usize) -> bool {
    &&& payload.len() <= u32::MAX
    &&& REPLY_HEADER_LEN + payload.len() <= max_payload
}

/// The refusal of a frame that does not fit.
pub open spec fn is_frame_error(
    error: Error,
    frame: Seq<char>,
    method_len: nat,
    payload_len: nat,
    max_payload: usize,
) -> bool {
    error matches Error::RpcFrameTooLarge {
        frame: named,
        method_len: method,
        payload_len: payload,
        max_payload: max,
    } && named@ == frame && method == method_len && payload == payload_len && max == max_payload
}

/// The bytes of a request.
pub open spec fn request_bytes(target: u16, method: Seq<u8>, payload: Seq<u8>) -> Seq<u8> {
    seq![PROTOCOL_VERSION] + buf::le_bytes(target as nat, 2) + buf::le_bytes(method.len(), 2)
        + buf::le_bytes(payload.len(), 4) + method + payload
}

/// The bytes of a reply.
pub open spec fn reply_bytes(request_id: NetId64, outcome: Outcome, payload: Seq<u8>) -> Seq<u8> {
    seq![PROTOCOL_VERSION] + seq![outcome.spec_to_wire()] + buf::le_bytes(
        request_id.spec_raw() as nat,
        8,
    ) + buf::le_bytes(payload.len(), 4) + payload
}

/// The request that bytes stand for: the declared lengths add up to the whole
/// frame, and the method is text.
pub open spec fn request_of(data: Seq<u8>) -> Option<RequestView> {
    if data.len() < REQUEST_HEADER_LEN || data[0] != PROTOCOL_VERSION {
        None
    } else {
        let method_end = REQUEST_HEADER_LEN + buf::le_value(data.subrange(3, 5));
        let payload_end = method_end + buf::le_value(data.subrange(5, 9));
        if payload_end != data.len() || !vstd::utf8::valid_utf8(
            data.subrange(REQUEST_HEADER_LEN as int, method_end),
        ) {
            None
        } else {
            Some(
                RequestView {
                    target: buf::le_value(data.subrange(1, 3)) as u16,
                    method: vstd::utf8::decode_utf8(
                        data.subrange(REQUEST_HEADER_LEN as int, method_end),
                    ),
                    payload: data.subrange(method_end, payload_end),
                },
            )
        }
    }
}

/// The reply that bytes stand for: it answers a request of the ring kind
/// `request_kind`, and the declared length is the rest of the frame.
pub open spec fn reply_of(data: Seq<u8>, request_kind: u8) -> Option<ReplyView> {
    if data.len() < REPLY_HEADER_LEN || data[0] != PROTOCOL_VERSION {
        None
    } else {
        let request_id = NetId64::of_raw(buf::le_value(data.subrange(2, 10)) as u64);
        let payload_end = REPLY_HEADER_LEN + buf::le_value(data.subrange(10, 14));
        match Outcome::spec_from_wire(data[1]) {
            Some(outcome) => if request_id.spec_kind() != request_kind || payload_end
                != data.len() {
                None
            } else {
                Some(
                    ReplyView {
                        request_id,
                        outcome,
                        payload: data.subrange(REPLY_HEADER_LEN as int, payload_end),
                    },
                )
            },
            None => None,
        }
    }
}

/// A decoded request.
pub struct DecodedRequest {
    pub target: NodeId,
    pub method: String,
    pub payload: Bytes,
}

impl View for DecodedRequest {
    type V = RequestView;

    open spec fn view(&self) -> RequestView {
        RequestView {
            target: self.target.spec_get(),
            method: self.method@,
            payload: buf::bytes_contents(self.payload),
        }
    }
}

/// A decoded reply.
pub struct DecodedReply {
    pub request_id: NetId64,
    pub outcome: Outcome,
    pub payload: Bytes,
}

impl View for DecodedReply {
    type V = ReplyView;

    open spec fn view(&self) -> ReplyView {
        ReplyView {
            request_id: self.request_id,
            outcome: self.outcome,
            payload: buf::bytes_contents(self.payload),
        }
    }
}

/// Encode a request for the request lane of `L`.
pub fn encode_request<L: Lane>(target: NodeId, method: &[u8], payload: &[u8]) -> (frame: Result<
    Bytes,
>)
    requires
        request_fits(method@, payload@, L::REQUEST_RING_PAYLOAD) ==> REQUEST_HEADER_LEN
            + method@.len() + payload@.len() <= isize::MAX,
    ensures
        match frame {
            Ok(bytes) => {
                &&& request_fits(method@, payload@, L::REQUEST_RING_PAYLOAD)
                &&& buf::bytes_contents(bytes) == request_bytes(target.spec_get(), method@, payload@)
                &&& buf::bytes_contents(bytes).len() <= L::REQUEST_RING_PAYLOAD
            },
            Err(error) => {
                &&& !request_fits(method@, payload@, L::REQUEST_RING_PAYLOAD)
                &&& is_frame_error(
                    error,
                    "request"@,
                    method@.len(),
                    payload@.len(),
                    L::REQUEST_RING_PAYLOAD,
                )
            },
        },
{
    let max_payload: usize = L::REQUEST_RING_PAYLOAD;
    let needed: u128 = REQUEST_HEADER_LEN as u128 + method.len() as u128 + payload.len() as u128;
    if method.len() > u16::MAX as usize || payload.len() as u64 > u32::MAX as u64 || needed
        > max_payload as u128 {
        return Err(
            Error::RpcFrameTooLarge {
                frame: "request",
                method_len: method.len(),
                payload_len: payload.len(),
                max_payload,
            },
        );
    }
    proof {
        buf::lemma_byte_spans();
        buf::lemma_le_round_trip(target.spec_get() as nat, 2);
        buf::lemma_le_round_trip(method@.len(), 2);
        buf::lemma_le_round_trip(payload@.len(), 4);
    }
    let mut out = buf::buf_with_capacity(needed as usize);
    buf::buf_put_u8(&mut out, PROTOCOL_VERSION);
    buf::buf_put_u16_le(&mut out, target.get());
    buf::buf_put_u16_le(&mut out, method.len() as u16);
    buf::buf_put_u32_le(&mut out, payload.len() as u32);
    buf::buf_put_slice(&mut out, method);
    buf::buf_put_slice(&mut out, payload);
    proof {
        assert(buf::buf_contents(out) =~= request_bytes(target.spec_get(), method@, payload@));
    }
    Ok(buf::buf_freeze(out))
}

/// Decode a request.
pub fn decode_request(payload: &Bytes) -> (request: Option<DecodedRequest>)
    ensures
        match request {
            Some(request) => request_of(buf::bytes_contents(*payload)) == Some(request@),
            None => request_of(buf::bytes_contents(*payload)) is None,
        },
{
    let data = buf::bytes_as_slice(payload);
    if data.len() < REQUEST_HEADER_LEN || data[0] != PROTOCOL_VERSION {
        return None;
    }
    proof {
        buf::lemma_byte_spans();
    }
    let target = NodeId::new(buf::read_le(data, 1, 2) as u16);
    let method_len: u64 = buf::read_le(data, 3, 2);
    let payload_len: u64 = buf::read_le(data, 5, 4);
    if REQUEST_HEADER_LEN as u64 + method_len + payload_len != data.len() as u64 {
        return None;
    }
    let method_end: usize = REQUEST_HEADER_LEN + method_len as usize;
    let method_bytes = buf::copy_range(data, REQUEST_HEADER_LEN, method_end);
    match text::from_utf8(method_bytes.as_slice()) {
        Some(method) => Some(
            DecodedRequest {
                target,
                method,
                payload: buf::bytes_slice(payload, method_end, data.len()),
            },
        ),
        None => None,
    }
}

/// Encode a reply for the reply lane of `L`.
pub fn encode_reply<L: Lane>(request_id: NetId64, outcome: Outcome, payload: &[u8]) -> (frame:
    Result<Bytes>)
    requires
        reply_fits(payload@, L::REPLY_RING_PAYLOAD) ==> REPLY_HEADER_LEN + payload@.len()
            <= isize::MAX,
    ensures
        match frame {
            Ok(bytes) => {
                &&& reply_fits(payload@, L::REPLY_RING_PAYLOAD)
                &&& buf::bytes_contents(bytes) == reply_bytes(request_id, outcome, payload@)
                &&& buf::bytes_contents(bytes).len() <= L::REPLY_RING_PAYLOAD
            },
            Err(error) => {
                &&& !reply_fits(payload@, L::REPLY_RING_PAYLOAD)
                &&& is_frame_error(error, "reply"@, 0, payload@.len(), L::REPLY_RING_PAYLOAD)
            },
        },
{
    let max_payload: usize = L::REPLY_RING_PAYLOAD;
    let needed: u128 = REPLY_HEADER_LEN as u128 + payload.len() as u128;
    if payload.len() as u64 > u32::MAX as u64 || needed > max_payload as u128 {
        return Err(
            Error::RpcFrameTooLarge {
                frame: "reply",
                method_len: 0,
                payload_len: payload.len(),
                max_payload,
            },
        );
    }
    proof {
        buf::lemma_byte_spans();
        buf::lemma_le_round_trip(request_id.spec_raw() as nat, 8);
        buf::lemma_le_round_trip(payload@.len(), 4);
    }
    let mut out = buf::buf_with_capacity(needed as usize);
    buf::buf_put_u8(&mut out, PROTOCOL_VERSION);
    buf::buf_put_u8(&mut out, outcome.to_wire());
    buf::buf_put_u64_le(&mut out, request_id.raw());
    buf::buf_put_u32_le(&mut out, payload.len() as u32);
    buf::buf_put_slice(&mut out, payload);
    proof {
        assert(buf::buf_contents(out) =~= reply_bytes(request_id, outcome, payload@));
    }
    Ok(buf::buf_freeze(out))
}

/// Decode a reply to a request of `L`.
pub fn decode_reply<L: Lane>(payload: &Bytes) -> (reply: Option<DecodedReply>)
    ensures
        match reply {
            Some(reply) => reply_of(buf::bytes_contents(*payload), L::REQUEST_RING_KIND) == Some(
                reply@,
            ),
            None => reply_of(buf::bytes_contents(*payload), L::REQUEST_RING_KIND) is None,
        },
{
    let data = buf::bytes_as_slice(payload);
    if data.len() < REPLY_HEADER_LEN || data[0] != PROTOCOL_VERSION {
        return None;
    }
    proof {
        buf::lemma_byte_spans();
    }
    let outcome = match Outcome::from_wire(data[1]) {
        Some(outcome) => outcome,
        None => {
            return None;
        },
    };
    let request_id = NetId64::from_raw(buf::read_le(data, 2, 8));
    if request_id.kind() != L::REQUEST_RING_KIND {
        return None;
    }
    let payload_len: u64 = buf::read_le(data, 10, 4);
    if REPLY_HEADER_LEN as u64 + payload_len != data.len() as u64 {
        return None;
    }
    Some(
        DecodedReply {
            request_id,
            outcome,
            payload: buf::bytes_slice(payload, REPLY_HEADER_LEN, data.len()),
        },
    )
}

/// Decoding a request gives back what was encoded.
pub proof fn law_requests_round_trip(target: u16, method: Seq<char>, payload: Seq<u8>, max_payload: usize)
    requires
        request_fits(vstd::utf8::encode_utf8(method), payload, max_payload),
    ensures
        request_of(request_bytes(target, vstd::utf8::encode_utf8(method), payload)) == Some(
            RequestView { target, method, payload },
        ),
{
    let name = vstd::utf8::encode_utf8(method);
    let data = request_bytes(target, name, payload);
    buf::lemma_byte_spans();
    buf::lemma_le_round_trip(target as nat, 2);
    buf::lemma_le_round_trip(name.len(), 2);
    buf::lemma_le_round_trip(payload.len(), 4);
    vstd::utf8::encode_utf8_valid_utf8(method);
    vstd::utf8::encode_utf8_decode_utf8(method);
    assert(data.subrange(1, 3) =~= buf::le_bytes(target as nat, 2));
    assert(data.subrange(3, 5) =~= buf::le_bytes(name.len(), 2));
    assert(data.subrange(5, 9) =~= buf::le_bytes(payload.len(), 4));
    assert(data.subrange(9, (9 + name.len()) as int) =~= name);
    assert(data.subrange((9 + name.len()) as int, data.len() as int) =~= payload);
}

/// Decoding a reply gives back what was encoded, for the domain whose request it
/// answers, and nothing for any other domain.
pub proof fn law_replies_round_trip(
    request_id: NetId64,
    outcome: Outcome,
    payload: Seq<u8>,
    max_payload: usize,
    request_kind: u8,
)
    requires
        reply_fits(payload, max_payload),
    ensures
        reply_of(reply_bytes(request_id, outcome, payload), request_kind) == (if request_kind
            == request_id.spec_kind() {
            Some(ReplyView { request_id, outcome, payload })
        } else {
            None
        }),
{
    let data = reply_bytes(request_id, outcome, payload);
    buf::lemma_byte_spans();
    buf::lemma_le_round_trip(request_id.spec_raw() as nat, 8);
    buf::lemma_le_round_trip(payload.len(), 4);
    id::lemma_raw_determines(request_id, request_id);
    assert(data[1] == outcome.spec_to_wire());
    assert(data.subrange(2, 10) =~= buf::le_bytes(request_id.spec_raw() as nat, 8));
    assert(data.subrange(10, 14) =~= buf::le_bytes(payload.len(), 4));
    assert(data.subrange(14, data.len() as int) =~= payload);
}

/// Where the parts of a request lie: the version, the member that is asked, the lengths
/// of the method and of the payload, and then the method and the payload.
pub proof fn law_the_layout_of_requests(target: u16, method: Seq<u8>, payload: Seq<u8>)
    requires
        method.len() <= u16::MAX,
        payload.len() <= u32::MAX,
    ensures
        ({
            let data = request_bytes(target, method, payload);
            let method_end = 9 + method.len() as int;
            &&& data.len() == method_end + payload.len()
            &&& data[0] == 1
            &&& buf::le_value(data.subrange(1, 3)) == target
            &&& buf::le_value(data.subrange(3, 5)) == method.len()
            &&& buf::le_value(data.subrange(5, 9)) == payload.len()
            &&& data.subrange(9, method_end) == method
            &&& data.subrange(method_end, data.len() as int) == payload
        }),
{
    let data = request_bytes(target, method, payload);
    let method_end = 9 + method.len() as int;
    buf::lemma_byte_spans();
    buf::lemma_le_round_trip(target as nat, 2);
    buf::lemma_le_round_trip(method.len(), 2);
    buf::lemma_le_round_trip(payload.len(), 4);
    assert(data.subrange(1, 3) =~= buf::le_bytes(target as nat, 2));
    assert(data.subrange(3, 5) =~= buf::le_bytes(method.len(), 2));
    assert(data.subrange(5, 9) =~= buf::le_bytes(payload.len(), 4));
    assert(data.subrange(9, method_end) =~= method);
    assert(data.subrange(method_end, data.len() as int) =~= payload);
}

/// Where the parts of a reply lie: the version, the byte of the outcome, the identifier
/// of the request it answers, the length of the payload, and then the payload.
pub proof fn law_the_layout_of_replies(request_id: NetId64, outcome: Outcome, payload: Seq<u8>)
    requires
        payload.len() <= u32::MAX,
    ensures
        ({
            let data = reply_bytes(request_id, outcome, payload);
            &&& data.len() == 14 + payload.len()
            &&& data[0] == 1
            &&& data[1] == (match outcome {
                Outcome::Completed => 1u8,
                Outcome::Rejected => 2u8,
                Outcome::Failed => 3u8,
            })
            &&& buf::le_value(data.subrange(2, 10)) == request_id.spec_raw()
            &&& buf::le_value(data.subrange(10, 14)) == payload.len()
            &&& data.subrange(14, data.len() as int) == payload
        }),
{
    let data = reply_bytes(request_id, outcome, payload);
    buf::lemma_byte_spans();
    buf::lemma_le_round_trip(request_id.spec_raw() as nat, 8);
    buf::lemma_le_round_trip(payload.len(), 4);
    assert(data.subrange(2, 10) =~= buf::le_bytes(request_id.spec_raw() as nat, 8));
    assert(data.subrange(10, 14) =~= buf::le_bytes(payload.len(), 4));
    assert(data.subrange(14, data.len() as int) =~= payload);
}

/// Bytes are read as a request exactly where they are its encoding: a request is never
/// read out of anything else.
pub proof fn law_only_encoded_requests_are_read(data: Seq<u8>)
    ensures
        request_of(data) matches Some(request) ==> {
            let method = vstd::utf8::encode_utf8(request.method);
            &&& method.len() <= u16::MAX
            &&& request.payload.len() <= u32::MAX
            &&& data == request_bytes(request.target, method, request.payload)
        },
        request_of(data) is None ==> forall|target: u16, method: Seq<char>, payload: Seq<u8>|
            vstd::utf8::encode_utf8(method).len() <= u16::MAX && payload.len() <= u32::MAX
                && 9 + vstd::utf8::encode_utf8(method).len() + payload.len() <= usize::MAX ==> data
                != #[trigger] request_bytes(target, vstd::utf8::encode_utf8(method), payload),
{
    if let Some(request) = request_of(data) {
        let method_end = 9 + buf::le_value(data.subrange(3, 5)) as int;
        let name = data.subrange(9, method_end);
        buf::lemma_byte_spans();
        buf::lemma_le_value_bound(data.subrange(1, 3));
        buf::lemma_le_value_bound(data.subrange(3, 5));
        buf::lemma_le_value_bound(data.subrange(5, 9));
        buf::lemma_le_bytes_of_value(data.subrange(1, 3));
        buf::lemma_le_bytes_of_value(data.subrange(3, 5));
        buf::lemma_le_bytes_of_value(data.subrange(5, 9));
        vstd::utf8::decode_utf8_encode_utf8(name);
        assert(data =~= request_bytes(request.target, name, request.payload));
    } else {
        assert forall|target: u16, method: Seq<char>, payload: Seq<u8>|
            vstd::utf8::encode_utf8(method).len() <= u16::MAX && payload.len() <= u32::MAX
                && 9 + vstd::utf8::encode_utf8(method).len() + payload.len()
                <= usize::MAX implies data != #[trigger] request_bytes(
            target,
            vstd::utf8::encode_utf8(method),
            payload,
        ) by {
            law_requests_round_trip(target, method, payload, usize::MAX);
        }
    }
}

/// Bytes are read as a reply exactly where they are the encoding of one to a request of
/// the domain: a reply is never read out of anything else.
pub proof fn law_only_encoded_replies_are_read(data: Seq<u8>, request_kind: u8)
    ensures
        reply_of(data, request_kind) matches Some(reply) ==> {
            &&& reply.request_id.spec_kind() == request_kind
            &&& reply.payload.len() <= u32::MAX
            &&& data == reply_bytes(reply.request_id, reply.outcome, reply.payload)
        },
        reply_of(data, request_kind) is None ==> forall|
            request_id: NetId64,
            outcome: Outcome,
            payload: Seq<u8>,
        |
            request_id.spec_kind() == request_kind && payload.len() <= u32::MAX && 14
                + payload.len() <= usize::MAX ==> data != #[trigger] reply_bytes(
                request_id,
                outcome,
                payload,
            ),
{
    if let Some(reply) = reply_of(data, request_kind) {
        buf::lemma_byte_spans();
        buf::lemma_le_value_bound(data.subrange(2, 10));
        buf::lemma_le_value_bound(data.subrange(10, 14));
        buf::lemma_le_bytes_of_value(data.subrange(2, 10));
        buf::lemma_le_bytes_of_value(data.subrange(10, 14));
        id::lemma_raw_kept(buf::le_value(data.subrange(2, 10)) as u64);
        assert(data =~= reply_bytes(reply.request_id, reply.outcome, reply.payload));
    } else {
        assert forall|request_id: NetId64, outcome: Outcome, payload: Seq<u8>|
            request_id.spec_kind() == request_kind && payload.len() <= u32::MAX && 14
                + payload.len() <= usize::MAX implies data != #[trigger] reply_bytes(
            request_id,
            outcome,
            payload,
        ) by {
            law_replies_round_trip(request_id, outcome, payload, usize::MAX, request_kind);
        }
    }
}

/// What fits into a frame: a request whose nine header bytes, method and payload stay
/// within the limit, and a reply whose fourteen header bytes and payload do, as long as
/// the lengths can be written down.
pub proof fn law_rpc_frames_are_bounded(method: Seq<u8>, payload: Seq<u8>, max_payload: usize)
    ensures
        request_fits(method, payload, max_payload) <==> method.len() < 0x1_0000 && payload.len()
            < 0x1_0000_0000 && 9 + method.len() + payload.len() <= max_payload,
        reply_fits(payload, max_payload) <==> payload.len() < 0x1_0000_0000 && 14 + payload.len()
            <= max_payload,
{
}

} // verus!
