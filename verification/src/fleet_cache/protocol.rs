//! Wire format of cache mutations.
//!
//! ```text
//! put:    [ op:u8 ][ key_len:u16 LE ][ expires_at_ms:u64 LE ][ first_id:u64 LE ]
//!         [ payload_version:u64 LE ][ chunk_count:u32 LE ][ value_len:u64 LE ][ key ]
//! delete: [ op:u8 ][ key_len:u16 LE ][ key ]
//! reset:  [ op:u8 ]
//! ```
//!
//! The sequence of a mutation travels in the version of its frame.

use bytes::Bytes;
use vstd::prelude::*;

use crate::buf;
use crate::id;
use crate::id::NetId64;
use crate::ring::{Frame, FrameView};

verus! {

/// Publish a value.
pub const OP_PUT: u8 = 1;

/// Drop a key.
pub const OP_DELETE: u8 = 2;

/// Drop every key.
pub const OP_RESET: u8 = 3;

/// Bytes in front of the key of a put.
pub const PUT_HEADER_LEN: usize = 39;

/// Bytes in front of the key of a delete.
pub const DELETE_HEADER_LEN: usize = 3;

/// Position of a mutation in the order of all mutations of the fleet.
///
/// The sequence comes from one allocator shared by every writer. The identifier
/// of the mutation's frame breaks ties.
#[derive(Clone, Copy, Debug, PartialEq, Eq, Structural)]
pub struct CacheRevision {
    pub sequence: u64,
    pub mutation_id: NetId64,
}

impl CacheRevision {
    /// Whether this revision is newer than another.
    pub open spec fn newer(self, other: CacheRevision) -> bool {
        self.sequence > other.sequence || (self.sequence == other.sequence
            && self.mutation_id.spec_raw() > other.mutation_id.spec_raw())
    }

    /// Whether this revision is newer than another.
    #[verifier::when_used_as_spec(newer)]
    pub fn is_newer_than(self, other: CacheRevision) -> (yes: bool)
        ensures
            yes == self.newer(other),
    {
        self.sequence > other.sequence || (self.sequence == other.sequence
            && self.mutation_id.raw() > other.mutation_id.raw())
    }
}

/// Revisions are totally ordered: of two different ones exactly one is newer, and
/// newer is transitive.
pub proof fn law_revisions_are_totally_ordered(a: CacheRevision, b: CacheRevision, c: CacheRevision)
    ensures
        a != b ==> a.newer(b) || b.newer(a),
        !(a.newer(b) && b.newer(a)),
        a.newer(b) && b.newer(c) ==> a.newer(c),
{
    id::lemma_raw_determines(a.mutation_id, b.mutation_id);
}

/// Where the bytes of a value lie in the payload ring.
#[derive(Clone, Copy, Debug, PartialEq, Eq, Structural)]
pub struct PayloadRef {
    /// Identifier of the first chunk.
    pub first_id: NetId64,
    /// Version that all chunks carry.
    pub payload_version: u64,
    /// Number of chunks.
    pub chunk_count: u32,
    /// Bytes of the value.
    pub value_len: u64,
}

/// One cache mutation.
#[derive(Clone, Debug, PartialEq, Eq)]
pub enum CacheMutation {
    Put { key: Bytes, revision: CacheRevision, payload: PayloadRef, expires_at_ms: Option<u64> },
    Delete { key: Bytes, revision: CacheRevision },
    Reset { revision: CacheRevision },
}

/// A cache mutation, as values.
pub enum MutationView {
    Put { key: Seq<u8>, revision: CacheRevision, payload: PayloadRef, expires_at_ms: Option<u64> },
    Delete { key: Seq<u8>, revision: CacheRevision },
    Reset { revision: CacheRevision },
}

impl View for CacheMutation {
    type V = MutationView;

    open spec fn view(&self) -> MutationView {
        match self {
            CacheMutation::Put { key, revision, payload, expires_at_ms } => MutationView::Put {
                key: buf::bytes_contents(*key),
                revision: *revision,
                payload: *payload,
                expires_at_ms: *expires_at_ms,
            },
            CacheMutation::Delete { key, revision } => MutationView::Delete {
                key: buf::bytes_contents(*key),
                revision: *revision,
            },
            CacheMutation::Reset { revision } => MutationView::Reset { revision: *revision },
        }
    }
}

impl MutationView {
    /// The revision of the mutation.
    pub open spec fn revision(self) -> CacheRevision {
        match self {
            MutationView::Put { revision, .. } => revision,
            MutationView::Delete { revision, .. } => revision,
            MutationView::Reset { revision } => revision,
        }
    }

    /// Whether the mutation decides about a key.
    pub open spec fn affects(self, key: Seq<u8>) -> bool {
        match self {
            MutationView::Put { key: named, .. } => named == key,
            MutationView::Delete { key: named, .. } => named == key,
            MutationView::Reset { .. } => true,
        }
    }
}

impl CacheMutation {
    /// The revision of the mutation.
    pub fn revision(&self) -> (revision: CacheRevision)
        ensures
            revision == self@.revision(),
    {
        match self {
            CacheMutation::Put { revision, .. } => *revision,
            CacheMutation::Delete { revision, .. } => *revision,
            CacheMutation::Reset { revision } => *revision,
        }
    }
}

/// The bytes of a put.
pub open spec fn put_bytes(key: Seq<u8>, payload: PayloadRef, expires_at_ms: Option<u64>) -> Seq<u8> {
    seq![OP_PUT] + buf::le_bytes(key.len(), 2) + buf::le_bytes(wire_expiry(expires_at_ms) as nat, 8)
        + buf::le_bytes(payload.first_id.spec_raw() as nat, 8) + buf::le_bytes(
        payload.payload_version as nat,
        8,
    ) + buf::le_bytes(payload.chunk_count as nat, 4) + buf::le_bytes(payload.value_len as nat, 8)
        + key
}

/// The expiry on the wire: zero stands for none.
pub open spec fn wire_expiry(expires_at_ms: Option<u64>) -> u64 {
    match expires_at_ms {
        Some(at) => at,
        None => 0,
    }
}

/// The bytes of a delete.
pub open spec fn delete_bytes(key: Seq<u8>) -> Seq<u8> {
    seq![OP_DELETE] + buf::le_bytes(key.len(), 2) + key
}

/// The bytes of a reset.
pub open spec fn reset_bytes() -> Seq<u8> {
    seq![OP_RESET]
}

/// The mutation that a frame of the mutation ring carries: its message class
/// agrees with the operation, and the declared length is the rest of the frame.
pub open spec fn mutation_of(frame: FrameView) -> Option<MutationView> {
    let data = frame.payload;
    let revision = CacheRevision { sequence: frame.ver, mutation_id: frame.id };
    if data.len() == 0 || data[0] != frame.kind {
        None
    } else if frame.kind == OP_PUT {
        if data.len() < PUT_HEADER_LEN || PUT_HEADER_LEN + buf::le_value(data.subrange(1, 3))
            != data.len() {
            None
        } else {
            let expires_at_ms = buf::le_value(data.subrange(3, 11)) as u64;
            Some(
                MutationView::Put {
                    key: data.subrange(PUT_HEADER_LEN as int, data.len() as int),
                    revision,
                    payload: PayloadRef {
                        first_id: NetId64::of_raw(buf::le_value(data.subrange(11, 19)) as u64),
                        payload_version: buf::le_value(data.subrange(19, 27)) as u64,
                        chunk_count: buf::le_value(data.subrange(27, 31)) as u32,
                        value_len: buf::le_value(data.subrange(31, 39)) as u64,
                    },
                    expires_at_ms: if expires_at_ms == 0 {
                        None
                    } else {
                        Some(expires_at_ms)
                    },
                },
            )
        }
    } else if frame.kind == OP_DELETE {
        if data.len() < DELETE_HEADER_LEN || DELETE_HEADER_LEN + buf::le_value(
            data.subrange(1, 3),
        ) != data.len() {
            None
        } else {
            Some(
                MutationView::Delete {
                    key: data.subrange(DELETE_HEADER_LEN as int, data.len() as int),
                    revision,
                },
            )
        }
    } else if frame.kind == OP_RESET && data.len() == 1 {
        Some(MutationView::Reset { revision })
    } else {
        None
    }
}

/// Encode a put.
pub fn encode_put(key: &[u8], payload: PayloadRef, expires_at_ms: Option<u64>) -> (bytes: Bytes)
    requires
        key@.len() <= u16::MAX,
    ensures
        buf::bytes_contents(bytes) == put_bytes(key@, payload, expires_at_ms),
        buf::bytes_contents(bytes).len() == PUT_HEADER_LEN + key@.len(),
{
    proof {
        lemma_put_len(key@, payload, expires_at_ms);
    }
    let expires: u64 = match expires_at_ms {
        Some(at) => at,
        None => 0,
    };
    let mut out = buf::buf_with_capacity(PUT_HEADER_LEN + key.len());
    buf::buf_put_u8(&mut out, OP_PUT);
    buf::buf_put_u16_le(&mut out, key.len() as u16);
    buf::buf_put_u64_le(&mut out, expires);
    buf::buf_put_u64_le(&mut out, payload.first_id.raw());
    buf::buf_put_u64_le(&mut out, payload.payload_version);
    buf::buf_put_u32_le(&mut out, payload.chunk_count);
    buf::buf_put_u64_le(&mut out, payload.value_len);
    buf::buf_put_slice(&mut out, key);
    proof {
        assert(buf::buf_contents(out) =~= put_bytes(key@, payload, expires_at_ms));
    }
    buf::buf_freeze(out)
}

/// The fields of a put have their widths.
pub proof fn lemma_put_len(key: Seq<u8>, payload: PayloadRef, expires_at_ms: Option<u64>)
    requires
        key.len() <= u16::MAX,
    ensures
        put_bytes(key, payload, expires_at_ms).len() == PUT_HEADER_LEN + key.len(),
        buf::le_bytes(key.len(), 2).len() == 2,
        buf::le_bytes(wire_expiry(expires_at_ms) as nat, 8).len() == 8,
        buf::le_bytes(payload.first_id.spec_raw() as nat, 8).len() == 8,
        buf::le_bytes(payload.payload_version as nat, 8).len() == 8,
        buf::le_bytes(payload.chunk_count as nat, 4).len() == 4,
        buf::le_bytes(payload.value_len as nat, 8).len() == 8,
        buf::le_value(buf::le_bytes(key.len(), 2)) == key.len(),
        buf::le_value(buf::le_bytes(wire_expiry(expires_at_ms) as nat, 8)) == wire_expiry(
            expires_at_ms,
        ),
        buf::le_value(buf::le_bytes(payload.first_id.spec_raw() as nat, 8))
            == payload.first_id.spec_raw(),
        buf::le_value(buf::le_bytes(payload.payload_version as nat, 8)) == payload.payload_version,
        buf::le_value(buf::le_bytes(payload.chunk_count as nat, 4)) == payload.chunk_count,
        buf::le_value(buf::le_bytes(payload.value_len as nat, 8)) == payload.value_len,
{
    buf::lemma_byte_spans();
    buf::lemma_le_round_trip(key.len(), 2);
    buf::lemma_le_round_trip(wire_expiry(expires_at_ms) as nat, 8);
    buf::lemma_le_round_trip(payload.first_id.spec_raw() as nat, 8);
    buf::lemma_le_round_trip(payload.payload_version as nat, 8);
    buf::lemma_le_round_trip(payload.chunk_count as nat, 4);
    buf::lemma_le_round_trip(payload.value_len as nat, 8);
}

/// Encode a delete.
pub fn encode_delete(key: &[u8]) -> (bytes: Bytes)
    requires
        key@.len() <= u16::MAX,
    ensures
        buf::bytes_contents(bytes) == delete_bytes(key@),
        buf::bytes_contents(bytes).len() == DELETE_HEADER_LEN + key@.len(),
{
    proof {
        buf::lemma_byte_spans();
        buf::lemma_le_round_trip(key@.len(), 2);
    }
    let mut out = buf::buf_with_capacity(DELETE_HEADER_LEN + key.len());
    buf::buf_put_u8(&mut out, OP_DELETE);
    buf::buf_put_u16_le(&mut out, key.len() as u16);
    buf::buf_put_slice(&mut out, key);
    proof {
        assert(buf::buf_contents(out) =~= delete_bytes(key@));
    }
    buf::buf_freeze(out)
}

/// Encode a reset.
pub fn encode_reset() -> (bytes: Bytes)
    ensures
        buf::bytes_contents(bytes) == reset_bytes(),
{
    let mut out = buf::buf_with_capacity(1);
    buf::buf_put_u8(&mut out, OP_RESET);
    proof {
        assert(buf::buf_contents(out) =~= reset_bytes());
    }
    buf::buf_freeze(out)
}

/// Decode the mutation that a frame carries.
pub fn decode_mutation(frame: &Frame) -> (mutation: Option<CacheMutation>)
    ensures
        match mutation {
            Some(mutation) => mutation_of(frame@) == Some(mutation@),
            None => mutation_of(frame@) is None,
        },
{
    let data = buf::bytes_as_slice(&frame.payload);
    let revision = CacheRevision { sequence: frame.ver, mutation_id: frame.id };
    if data.len() == 0 || data[0] != frame.kind {
        return None;
    }
    proof {
        buf::lemma_byte_spans();
    }
    if frame.kind == OP_PUT {
        if data.len() < PUT_HEADER_LEN {
            return None;
        }
        let key_len: usize = buf::read_le(data, 1, 2) as usize;
        if PUT_HEADER_LEN + key_len != data.len() {
            return None;
        }
        let expires: u64 = buf::read_le(data, 3, 8);
        let expires_at_ms: Option<u64> = if expires == 0 {
            None
        } else {
            Some(expires)
        };
        let payload = PayloadRef {
            first_id: NetId64::from_raw(buf::read_le(data, 11, 8)),
            payload_version: buf::read_le(data, 19, 8),
            chunk_count: buf::read_le(data, 27, 4) as u32,
            value_len: buf::read_le(data, 31, 8),
        };
        let key = buf::bytes_slice(&frame.payload, PUT_HEADER_LEN, data.len());
        Some(CacheMutation::Put { key, revision, payload, expires_at_ms })
    } else if frame.kind == OP_DELETE {
        if data.len() < DELETE_HEADER_LEN {
            return None;
        }
        let key_len: usize = buf::read_le(data, 1, 2) as usize;
        if DELETE_HEADER_LEN + key_len != data.len() {
            return None;
        }
        let key = buf::bytes_slice(&frame.payload, DELETE_HEADER_LEN, data.len());
        Some(CacheMutation::Delete { key, revision })
    } else if frame.kind == OP_RESET && data.len() == 1 {
        Some(CacheMutation::Reset { revision })
    } else {
        None
    }
}

/// Decoding gives back what was encoded: the key, the payload reference and the
/// expiry of a put, the key of a delete, and a reset; the revision is that of the
/// frame.
pub proof fn law_mutations_round_trip(
    id: NetId64,
    sequence: u64,
    key: Seq<u8>,
    payload: PayloadRef,
    expires_at_ms: Option<u64>,
)
    requires
        key.len() <= u16::MAX,
        expires_at_ms != Some(0u64),
    ensures
        mutation_of(
            FrameView {
                id,
                kind: OP_PUT,
                ver: sequence,
                payload: put_bytes(key, payload, expires_at_ms),
            },
        ) == Some(
            MutationView::Put {
                key,
                revision: CacheRevision { sequence, mutation_id: id },
                payload,
                expires_at_ms,
            },
        ),
        mutation_of(
            FrameView { id, kind: OP_DELETE, ver: sequence, payload: delete_bytes(key) },
        ) == Some(
            MutationView::Delete { key, revision: CacheRevision { sequence, mutation_id: id } },
        ),
        mutation_of(
            FrameView { id, kind: OP_RESET, ver: sequence, payload: reset_bytes() },
        ) == Some(MutationView::Reset { revision: CacheRevision { sequence, mutation_id: id } }),
{
    lemma_put_len(key, payload, expires_at_ms);
    id::lemma_raw_determines(payload.first_id, payload.first_id);
    let data = put_bytes(key, payload, expires_at_ms);
    assert(data.subrange(1, 3) =~= buf::le_bytes(key.len(), 2));
    assert(data.subrange(3, 11) =~= buf::le_bytes(wire_expiry(expires_at_ms) as nat, 8));
    assert(data.subrange(11, 19) =~= buf::le_bytes(payload.first_id.spec_raw() as nat, 8));
    assert(data.subrange(19, 27) =~= buf::le_bytes(payload.payload_version as nat, 8));
    assert(data.subrange(27, 31) =~= buf::le_bytes(payload.chunk_count as nat, 4));
    assert(data.subrange(31, 39) =~= buf::le_bytes(payload.value_len as nat, 8));
    assert(data.subrange(39, data.len() as int) =~= key);
    let gone = delete_bytes(key);
    assert(gone.subrange(1, 3) =~= buf::le_bytes(key.len(), 2));
    assert(gone.subrange(3, gone.len() as int) =~= key);
}

/// A newer revision has the higher sequence, and of equal sequences the higher
/// identifier.
pub proof fn law_revisions_go_by_sequence_first(a: CacheRevision, b: CacheRevision)
    ensures
        a.sequence > b.sequence ==> a.newer(b),
        a.sequence < b.sequence ==> !a.newer(b),
        a.sequence == b.sequence ==> (a.newer(b) <==> a.mutation_id.spec_raw()
            > b.mutation_id.spec_raw()),
{
}

/// Where the parts of a mutation lie. A put: the operation, the length of the key, the
/// expiry or zero, the reference to the value, and the key. A delete: the operation, the
/// length of the key, and the key. A reset: the operation alone.
pub proof fn law_the_layout_of_mutations(
    key: Seq<u8>,
    payload: PayloadRef,
    expires_at_ms: Option<u64>,
)
    requires
        key.len() <= u16::MAX,
    ensures
        ({
            let put = put_bytes(key, payload, expires_at_ms);
            let delete = delete_bytes(key);
            &&& put.len() == 39 + key.len()
            &&& put[0] == 1
            &&& buf::le_value(put.subrange(1, 3)) == key.len()
            &&& expires_at_ms is None ==> buf::le_value(put.subrange(3, 11)) == 0
            &&& expires_at_ms matches Some(at) ==> buf::le_value(put.subrange(3, 11)) == at
            &&& buf::le_value(put.subrange(11, 19)) == payload.first_id.spec_raw()
            &&& buf::le_value(put.subrange(19, 27)) == payload.payload_version
            &&& buf::le_value(put.subrange(27, 31)) == payload.chunk_count
            &&& buf::le_value(put.subrange(31, 39)) == payload.value_len
            &&& put.subrange(39, put.len() as int) == key
            &&& delete.len() == 3 + key.len()
            &&& delete[0] == 2
            &&& buf::le_value(delete.subrange(1, 3)) == key.len()
            &&& delete.subrange(3, delete.len() as int) == key
            &&& reset_bytes().len() == 1
            &&& reset_bytes()[0] == 3
        }),
{
    lemma_put_len(key, payload, expires_at_ms);
    let put = put_bytes(key, payload, expires_at_ms);
    let delete = delete_bytes(key);
    buf::lemma_byte_spans();
    buf::lemma_le_round_trip(key.len(), 2);
    buf::lemma_le_round_trip(wire_expiry(expires_at_ms) as nat, 8);
    buf::lemma_le_round_trip(payload.first_id.spec_raw() as nat, 8);
    buf::lemma_le_round_trip(payload.payload_version as nat, 8);
    buf::lemma_le_round_trip(payload.chunk_count as nat, 4);
    buf::lemma_le_round_trip(payload.value_len as nat, 8);
    assert(put.subrange(1, 3) =~= buf::le_bytes(key.len(), 2));
    assert(put.subrange(3, 11) =~= buf::le_bytes(wire_expiry(expires_at_ms) as nat, 8));
    assert(put.subrange(11, 19) =~= buf::le_bytes(payload.first_id.spec_raw() as nat, 8));
    assert(put.subrange(19, 27) =~= buf::le_bytes(payload.payload_version as nat, 8));
    assert(put.subrange(27, 31) =~= buf::le_bytes(payload.chunk_count as nat, 4));
    assert(put.subrange(31, 39) =~= buf::le_bytes(payload.value_len as nat, 8));
    assert(put.subrange(39, put.len() as int) =~= key);
    assert(delete.subrange(1, 3) =~= buf::le_bytes(key.len(), 2));
    assert(delete.subrange(3, delete.len() as int) =~= key);
}

/// Frames are read as mutations exactly where they carry the encoding of one under its
/// own message class: a mutation is never read out of anything else, and its revision is
/// the version and the identifier of the frame.
pub proof fn law_only_encoded_mutations_are_read(frame: FrameView)
    ensures
        mutation_of(frame) matches Some(mutation) ==> {
            &&& mutation.revision() == (CacheRevision {
                sequence: frame.ver,
                mutation_id: frame.id,
            })
            &&& match mutation {
                MutationView::Put { key, payload, expires_at_ms, .. } => frame.kind == 1
                    && key.len() <= u16::MAX && expires_at_ms != Some(0u64) && frame.payload
                    == put_bytes(key, payload, expires_at_ms),
                MutationView::Delete { key, .. } => frame.kind == 2 && key.len() <= u16::MAX
                    && frame.payload == delete_bytes(key),
                MutationView::Reset { .. } => frame.kind == 3 && frame.payload == reset_bytes(),
            }
        },
        mutation_of(frame) is None ==> {
            &&& forall|key: Seq<u8>, payload: PayloadRef, expires_at_ms: Option<u64>|
                frame.kind == 1 && key.len() <= u16::MAX && expires_at_ms != Some(0u64)
                    ==> frame.payload != #[trigger] put_bytes(key, payload, expires_at_ms)
            &&& forall|key: Seq<u8>|
                frame.kind == 2 && key.len() <= u16::MAX ==> frame.payload != #[trigger] delete_bytes(
                    key,
                )
            &&& frame.kind == 3 ==> frame.payload != reset_bytes()
        },
{
    let data = frame.payload;
    if let Some(mutation) = mutation_of(frame) {
        buf::lemma_byte_spans();
        match mutation {
            MutationView::Put { key, payload, expires_at_ms, .. } => {
                buf::lemma_le_value_bound(data.subrange(1, 3));
                buf::lemma_le_value_bound(data.subrange(3, 11));
                buf::lemma_le_value_bound(data.subrange(11, 19));
                buf::lemma_le_value_bound(data.subrange(19, 27));
                buf::lemma_le_value_bound(data.subrange(27, 31));
                buf::lemma_le_value_bound(data.subrange(31, 39));
                buf::lemma_le_bytes_of_value(data.subrange(1, 3));
                buf::lemma_le_bytes_of_value(data.subrange(3, 11));
                buf::lemma_le_bytes_of_value(data.subrange(11, 19));
                buf::lemma_le_bytes_of_value(data.subrange(19, 27));
                buf::lemma_le_bytes_of_value(data.subrange(27, 31));
                buf::lemma_le_bytes_of_value(data.subrange(31, 39));
                id::lemma_raw_kept(buf::le_value(data.subrange(11, 19)) as u64);
                assert(data =~= put_bytes(key, payload, expires_at_ms));
            },
            MutationView::Delete { key, .. } => {
                buf::lemma_le_value_bound(data.subrange(1, 3));
                buf::lemma_le_bytes_of_value(data.subrange(1, 3));
                assert(data =~= delete_bytes(key));
            },
            MutationView::Reset { .. } => {
                assert(data =~= reset_bytes());
            },
        }
    } else {
        assert forall|key: Seq<u8>, payload: PayloadRef, expires_at_ms: Option<u64>|
            frame.kind == 1 && key.len() <= u16::MAX && expires_at_ms != Some(0u64) implies data
            != #[trigger] put_bytes(key, payload, expires_at_ms) by {
            law_mutations_round_trip(frame.id, frame.ver, key, payload, expires_at_ms);
        }
        let nowhere = PayloadRef {
            first_id: frame.id,
            payload_version: 0,
            chunk_count: 0,
            value_len: 0,
        };
        assert forall|key: Seq<u8>| frame.kind == 2 && key.len() <= u16::MAX implies data
            != #[trigger] delete_bytes(key) by {
            law_mutations_round_trip(frame.id, frame.ver, key, nowhere, None);
        }
        law_mutations_round_trip(frame.id, frame.ver, seq![], nowhere, None);
    }
}

} // verus!
