//! Runtime-bound frame identifiers.
//!
//! A [`NetId64`] packs `[kind:8][node:16][counter:40]` into one `u64`. The
//! packing, the field access, the wire bytes and the text form are those of the
//! `netid64` crate; this module holds the raw value and states what each of
//! those calls does with it.

use vstd::prelude::*;

use crate::text;

verus! {

/// Number of values the counter field can take.
pub const COUNTER_SPAN: u64 = 0x100_0000_0000;

/// Number of values the node field can take.
pub const NODE_SPAN: u64 = 0x1_0000;

/// Weight of the kind field inside the raw value.
pub const KIND_WEIGHT: u64 = 0x100_0000_0000_0000;

/// The raw value that holds `kind`, `node` and the low 40 bits of `counter`.
pub open spec fn packed(kind: u8, node: u16, counter: nat) -> int {
    kind * KIND_WEIGHT + node * COUNTER_SPAN + counter % (COUNTER_SPAN as nat)
}

/// The text `kind:node:counter` of a raw value.
pub open spec fn id_text(raw: u64) -> Seq<char> {
    text::decimal((raw / KIND_WEIGHT) as nat) + seq![':'] + text::decimal(
        ((raw / COUNTER_SPAN) % NODE_SPAN) as nat,
    ) + seq![':'] + text::decimal((raw % COUNTER_SPAN) as nat)
}

/// The value that eight big-endian bytes stand for.
pub open spec fn be_value(bytes: Seq<u8>) -> int {
    bytes[0] * 0x100_0000_0000_0000 + bytes[1] * 0x1_0000_0000_0000 + bytes[2] * 0x100_0000_0000
        + bytes[3] * 0x1_0000_0000 + bytes[4] * 0x100_0000 + bytes[5] * 0x1_0000 + bytes[6] * 0x100
        + bytes[7]
}

/// What parsing a text as an identifier gives: the raw value, or nothing where
/// the text is no identifier.
pub uninterp spec fn parsed_raw(text: Seq<char>) -> Option<u64>;

/// Runtime-bound 64-bit identifier carried by every frame.
#[derive(Clone, Copy, Debug, PartialEq, Eq, Structural, Hash)]
pub struct NetId64 {
    raw: u64,
}

/// A text that is no identifier.
#[derive(Clone, Copy, Debug, PartialEq, Eq, Structural)]
pub struct ParseNetId64Error;

/// Calls `netid64::NetId64::make` and takes the raw value of the result: the
/// three fields side by side, the counter cut to its low 40 bits.
#[verifier::external_body]
fn make_raw(kind: u8, node: u16, counter: u64) -> (raw: u64)
    ensures
        raw == packed(kind, node, counter as nat),
{
    netid64::NetId64::make(kind, node, counter).raw()
}

/// Calls `netid64::NetId64::kind` on the raw value: its top 8 bits.
#[verifier::external_body]
fn raw_kind(raw: u64) -> (kind: u8)
    ensures
        kind == raw / KIND_WEIGHT,
{
    netid64::NetId64::from_raw(raw).kind()
}

/// Calls `netid64::NetId64::node` on the raw value: the 16 bits below the kind.
#[verifier::external_body]
fn raw_node(raw: u64) -> (node: u16)
    ensures
        node == (raw / COUNTER_SPAN) % NODE_SPAN,
{
    netid64::NetId64::from_raw(raw).node()
}

/// Calls `netid64::NetId64::counter` on the raw value: its low 40 bits.
#[verifier::external_body]
fn raw_counter(raw: u64) -> (counter: u64)
    ensures
        counter == raw % COUNTER_SPAN,
{
    netid64::NetId64::from_raw(raw).counter()
}

/// Calls `netid64::NetId64::to_be_bytes` on the raw value: the eight bytes
/// whose big-endian value it is.
#[verifier::external_body]
fn raw_to_be_bytes(raw: u64) -> (bytes: [u8; 8])
    ensures
        be_value(bytes@) == raw,
{
    netid64::NetId64::from_raw(raw).to_be_bytes()
}

/// Calls `netid64::NetId64::from_be_bytes` and takes the raw value: the
/// big-endian value of the eight bytes.
#[verifier::external_body]
fn raw_from_be_bytes(bytes: [u8; 8]) -> (raw: u64)
    ensures
        raw == be_value(bytes@),
{
    netid64::NetId64::from_be_bytes(bytes).raw()
}

/// Calls the `Display` of `netid64::NetId64` on the raw value: the decimal
/// fields, with a colon between them.
#[verifier::external_body]
fn raw_to_text(raw: u64) -> (text: String)
    ensures
        text@ == id_text(raw),
{
    format!("{}", netid64::NetId64::from_raw(raw))
}

/// Calls the `FromStr` of `netid64::NetId64` and takes the raw value. The whole
/// grammar it accepts is left to the name `parsed_raw`; what is stated of it is
/// that the text of an identifier gives that identifier back.
#[verifier::external_body]
fn raw_from_text(text: &str) -> (raw: Option<u64>)
    ensures
        raw == parsed_raw(text@),
        forall|id: u64| text@ == #[trigger] id_text(id) ==> raw == Some(id),
{
    match text.parse::<netid64::NetId64>() {
        Ok(id) => Some(id.raw()),
        Err(_) => None,
    }
}

impl NetId64 {
    /// The raw value of this identifier.
    pub closed spec fn spec_raw(self) -> u64 {
        self.raw
    }

    /// The identifier with a given raw value.
    pub closed spec fn of_raw(raw: u64) -> NetId64 {
        NetId64 { raw }
    }

    /// The kind field.
    pub open spec fn spec_kind(self) -> u8 {
        (self.spec_raw() / KIND_WEIGHT) as u8
    }

    /// The node field.
    pub open spec fn spec_node(self) -> u16 {
        ((self.spec_raw() / COUNTER_SPAN) % NODE_SPAN) as u16
    }

    /// The counter field.
    pub open spec fn spec_counter(self) -> u64 {
        self.spec_raw() % COUNTER_SPAN
    }

    /// The identifier minted for position `counter`.
    pub open spec fn minted(kind: u8, node: u16, counter: nat) -> NetId64 {
        NetId64::of_raw(packed(kind, node, counter) as u64)
    }

    /// Construct from a raw value.
    pub fn from_raw(raw: u64) -> (id: NetId64)
        ensures
            id == NetId64::of_raw(raw),
            id.spec_raw() == raw,
    {
        NetId64 { raw }
    }

    /// The raw value.
    #[verifier::when_used_as_spec(spec_raw)]
    pub fn raw(self) -> (raw: u64)
        ensures
            raw == self.spec_raw(),
            self == NetId64::of_raw(raw),
    {
        self.raw
    }

    /// Build an identifier from its fields; the counter is cut to 40 bits.
    pub fn make(kind: u8, node: u16, counter: u64) -> (id: NetId64)
        ensures
            id == NetId64::minted(kind, node, counter as nat),
            id.spec_raw() == packed(kind, node, counter as nat),
            id.spec_kind() == kind,
            id.spec_node() == node,
            id.spec_counter() == counter % COUNTER_SPAN,
    {
        let id = NetId64 { raw: make_raw(kind, node, counter) };
        proof {
            lemma_minted_fields(kind, node, counter as nat);
        }
        id
    }

    /// The kind field: which value family this identifier belongs to.
    #[verifier::when_used_as_spec(spec_kind)]
    pub fn kind(self) -> (kind: u8)
        ensures
            kind == self.spec_kind(),
    {
        raw_kind(self.raw)
    }

    /// The node field: which member minted this identifier.
    #[verifier::when_used_as_spec(spec_node)]
    pub fn node(self) -> (node: u16)
        ensures
            node == self.spec_node(),
    {
        raw_node(self.raw)
    }

    /// The counter field: the ring position the identifier was minted for.
    #[verifier::when_used_as_spec(spec_counter)]
    pub fn counter(self) -> (counter: u64)
        ensures
            counter == self.spec_counter(),
            counter < COUNTER_SPAN,
    {
        raw_counter(self.raw)
    }

    /// Big-endian wire bytes.
    pub fn to_be_bytes(self) -> (bytes: [u8; 8])
        ensures
            be_value(bytes@) == self.spec_raw(),
    {
        raw_to_be_bytes(self.raw)
    }

    /// Reconstruct from big-endian wire bytes.
    pub fn from_be_bytes(bytes: [u8; 8]) -> (id: NetId64)
        ensures
            id.spec_raw() == be_value(bytes@),
            id == NetId64::of_raw(be_value(bytes@) as u64),
    {
        NetId64 { raw: raw_from_be_bytes(bytes) }
    }

    /// The text `kind:node:counter`.
    pub fn to_text(self) -> (text: String)
        ensures
            text@ == id_text(self.spec_raw()),
    {
        raw_to_text(self.raw)
    }

    /// Parse the text of an identifier.
    pub fn parse(text: &str) -> (id: Result<NetId64, ParseNetId64Error>)
        ensures
            id is Ok <==> parsed_raw(text@) is Some,
            id is Ok ==> parsed_raw(text@) == Some(id->Ok_0.spec_raw()),
            forall|known: NetId64|
                text@ == #[trigger] id_text(known.spec_raw()) ==> id == Ok::<
                    NetId64,
                    ParseNetId64Error,
                >(known),
    {
        let raw = raw_from_text(text);
        proof {
            assert forall|known: NetId64|
                text@ == #[trigger] id_text(known.spec_raw()) implies raw == Some(known.raw) by {}
        }
        match raw {
            Some(raw) => Ok(NetId64 { raw }),
            None => Err(ParseNetId64Error),
        }
    }
}

/// The fields of a minted identifier are those it was minted from, the counter
/// cut to 40 bits.
pub proof fn lemma_minted_fields(kind: u8, node: u16, counter: nat)
    ensures
        0 <= packed(kind, node, counter) <= u64::MAX,
        NetId64::minted(kind, node, counter).spec_raw() == packed(kind, node, counter),
        NetId64::minted(kind, node, counter).spec_kind() == kind,
        NetId64::minted(kind, node, counter).spec_node() == node,
        NetId64::minted(kind, node, counter).spec_counter() == counter % (COUNTER_SPAN as nat),
{
    let low = counter % (COUNTER_SPAN as nat);
    let raw = packed(kind, node, counter);
    assert(0 <= low < COUNTER_SPAN);
    assert(raw == (kind * NODE_SPAN + node) * COUNTER_SPAN + low);
    assert(0 <= raw <= u64::MAX);
    assert(raw % (COUNTER_SPAN as int) == low);
    assert(raw / (COUNTER_SPAN as int) == kind * NODE_SPAN + node);
    assert((kind * NODE_SPAN + node) % (NODE_SPAN as int) == node);
    assert(raw / (KIND_WEIGHT as int) == kind);
}

/// An identifier is determined by its raw value.
pub proof fn lemma_raw_determines(a: NetId64, b: NetId64)
    ensures
        a.spec_raw() == b.spec_raw() ==> a == b,
        NetId64::of_raw(a.spec_raw()) == a,
{
}

/// A raw value is kept by the identifier made from it.
pub proof fn lemma_raw_kept(raw: u64)
    ensures
        NetId64::of_raw(raw).spec_raw() == raw,
{
}

/// An identifier is determined by its fields.
pub proof fn lemma_fields_determine(a: NetId64, b: NetId64)
    requires
        a.spec_kind() == b.spec_kind(),
        a.spec_node() == b.spec_node(),
        a.spec_counter() == b.spec_counter(),
    ensures
        a == b,
{
    let x = a.spec_raw();
    let y = b.spec_raw();
    assert(x == (x / KIND_WEIGHT) * KIND_WEIGHT + ((x / COUNTER_SPAN) % NODE_SPAN) * COUNTER_SPAN + x
        % COUNTER_SPAN);
    assert(y == (y / KIND_WEIGHT) * KIND_WEIGHT + ((y / COUNTER_SPAN) % NODE_SPAN) * COUNTER_SPAN + y
        % COUNTER_SPAN);
    lemma_raw_determines(a, b);
}

/// Wire bytes determine the identifier: what the bytes of one identifier
/// stand for is its raw value and no other.
pub proof fn law_wire_bytes_round_trip(a: NetId64, bytes: Seq<u8>)
    requires
        bytes.len() == 8,
        be_value(bytes) == a.spec_raw(),
    ensures
        NetId64::of_raw(be_value(bytes) as u64) == a,
{
}

/// Identifiers minted for different members or different positions differ, as
/// long as the positions fit the counter field.
pub proof fn law_minted_ids_are_distinct(
    kind: u8,
    node_a: u16,
    counter_a: nat,
    node_b: u16,
    counter_b: nat,
)
    requires
        counter_a < COUNTER_SPAN,
        counter_b < COUNTER_SPAN,
        node_a != node_b || counter_a != counter_b,
    ensures
        NetId64::minted(kind, node_a, counter_a) != NetId64::minted(kind, node_b, counter_b),
{
    lemma_minted_fields(kind, node_a, counter_a);
    lemma_minted_fields(kind, node_b, counter_b);
}

} // verus!
