//! Byte buffers of the `bytes` crate.
//!
//! Payloads are `bytes::Bytes` and frames are assembled in a `bytes::BytesMut`.
//! Both are opaque to the proofs; what a buffer holds is named, and each call
//! below states what it does to that content.

use bytes::{BufMut, Bytes, BytesMut};
use vstd::prelude::*;

verus! {

#[verifier::external_type_specification]
#[verifier::external_body]
pub struct ExBytes(bytes::Bytes);

#[verifier::external_type_specification]
#[verifier::external_body]
pub struct ExBytesMut(bytes::BytesMut);

/// The bytes a shared buffer holds.
pub uninterp spec fn bytes_contents(b: Bytes) -> Seq<u8>;

/// The bytes a buffer under construction holds so far.
pub uninterp spec fn buf_contents(b: BytesMut) -> Seq<u8>;

/// The `width` lowest bytes of `n`, lowest first.
pub open spec fn le_bytes(n: nat, width: nat) -> Seq<u8>
    decreases width,
{
    if width == 0 {
        Seq::empty()
    } else {
        seq![(n % 256) as u8] + le_bytes(n / 256, (width - 1) as nat)
    }
}

/// The number whose bytes, lowest first, these are.
pub open spec fn le_value(bytes: Seq<u8>) -> nat
    decreases bytes.len(),
{
    if bytes.len() == 0 {
        0
    } else {
        bytes[0] as nat + 256 * le_value(bytes.skip(1))
    }
}

/// How many numbers `width` bytes hold.
pub open spec fn byte_span(width: nat) -> nat
    decreases width,
{
    if width == 0 {
        1
    } else {
        256 * byte_span((width - 1) as nat)
    }
}

/// The bytes that each of a list of buffers holds.
pub open spec fn all_contents(buffers: Seq<Bytes>) -> Seq<Seq<u8>> {
    buffers.map_values(|buffer: Bytes| bytes_contents(buffer))
}

/// Calls `bytes::Bytes::copy_from_slice`: a buffer that holds a copy of `data`.
#[verifier::external_body]
pub(crate) fn bytes_from_slice(data: &[u8]) -> (b: Bytes)
    ensures
        bytes_contents(b) == data@,
{
    Bytes::copy_from_slice(data)
}

/// Calls the `Deref` of `bytes::Bytes`: all the bytes the buffer holds.
#[verifier::external_body]
pub(crate) fn bytes_as_slice(b: &Bytes) -> (data: &[u8])
    ensures
        data@ == bytes_contents(*b),
{
    b
}

/// The `Clone` of `bytes::Bytes` gives another handle on the same bytes.
pub assume_specification[ <bytes::Bytes as Clone>::clone ](b: &bytes::Bytes) -> (copy: bytes::Bytes)
    ensures
        bytes_contents(copy) == bytes_contents(*b),
;

/// Calls `bytes::Bytes::slice` with `from..to`: a handle on that part of the
/// buffer. The call panics where the range does not lie inside the buffer.
#[verifier::external_body]
pub(crate) fn bytes_slice(b: &Bytes, from: usize, to: usize) -> (part: Bytes)
    requires
        from <= to <= bytes_contents(*b).len(),
    ensures
        bytes_contents(part) == bytes_contents(*b).subrange(from as int, to as int),
{
    b.slice(from..to)
}

/// Calls `bytes::BytesMut::with_capacity`: an empty buffer. The call panics
/// where the capacity is above `isize::MAX`.
#[verifier::external_body]
pub(crate) fn buf_with_capacity(capacity: usize) -> (b: BytesMut)
    requires
        capacity <= isize::MAX,
    ensures
        buf_contents(b) == Seq::<u8>::empty(),
{
    BytesMut::with_capacity(capacity)
}

/// Calls `bytes::BufMut::put_u8`: appends one byte. A buffer never grows above
/// `isize::MAX` bytes; the call panics there.
#[verifier::external_body]
pub(crate) fn buf_put_u8(b: &mut BytesMut, n: u8)
    requires
        buf_contents(*old(b)).len() + 1 <= isize::MAX,
    ensures
        buf_contents(*final(b)) == buf_contents(*old(b)).push(n),
{
    b.put_u8(n)
}

/// Calls `bytes::BufMut::put_u16_le`: appends the two bytes of `n`, lowest
/// first.
#[verifier::external_body]
pub(crate) fn buf_put_u16_le(b: &mut BytesMut, n: u16)
    requires
        buf_contents(*old(b)).len() + 2 <= isize::MAX,
    ensures
        buf_contents(*final(b)) == buf_contents(*old(b)) + le_bytes(n as nat, 2),
{
    b.put_u16_le(n)
}

/// Calls `bytes::BufMut::put_u32_le`: appends the four bytes of `n`, lowest
/// first.
#[verifier::external_body]
pub(crate) fn buf_put_u32_le(b: &mut BytesMut, n: u32)
    requires
        buf_contents(*old(b)).len() + 4 <= isize::MAX,
    ensures
        buf_contents(*final(b)) == buf_contents(*old(b)) + le_bytes(n as nat, 4),
{
    b.put_u32_le(n)
}

/// Calls `bytes::BufMut::put_u64_le`: appends the eight bytes of `n`, lowest
/// first.
#[verifier::external_body]
pub(crate) fn buf_put_u64_le(b: &mut BytesMut, n: u64)
    requires
        buf_contents(*old(b)).len() + 8 <= isize::MAX,
    ensures
        buf_contents(*final(b)) == buf_contents(*old(b)) + le_bytes(n as nat, 8),
{
    b.put_u64_le(n)
}

/// Calls `bytes::BufMut::put_slice`: appends all of `data`.
#[verifier::external_body]
pub(crate) fn buf_put_slice(b: &mut BytesMut, data: &[u8])
    requires
        buf_contents(*old(b)).len() + data@.len() <= isize::MAX,
    ensures
        buf_contents(*final(b)) == buf_contents(*old(b)) + data@,
{
    b.put_slice(data)
}

/// Calls `bytes::BytesMut::freeze`: the same bytes as a shared buffer.
#[verifier::external_body]
pub(crate) fn buf_freeze(b: BytesMut) -> (frozen: Bytes)
    ensures
        bytes_contents(frozen) == buf_contents(b),
{
    b.freeze()
}

/// Whether two byte strings are equal.
pub fn same_bytes(a: &[u8], b: &[u8]) -> (same: bool)
    ensures
        same == (a@ == b@),
{
    if a.len() != b.len() {
        return false;
    }
    let mut i: usize = 0;
    while i < a.len()
        invariant
            i <= a.len(),
            a.len() == b.len(),
            forall|j: int| 0 <= j < i ==> a@[j] == b@[j],
        decreases a.len() - i,
    {
        if a[i] != b[i] {
            assert(a@[i as int] != b@[i as int]);
            return false;
        }
        i = i + 1;
    }
    assert(a@ =~= b@);
    true
}

/// Whether `data` starts with `prefix`.
pub fn starts_with(data: &[u8], prefix: &[u8]) -> (yes: bool)
    ensures
        yes == prefix@.is_prefix_of(data@),
{
    if prefix.len() > data.len() {
        return false;
    }
    let mut i: usize = 0;
    while i < prefix.len()
        invariant
            i <= prefix.len() <= data.len(),
            forall|j: int| 0 <= j < i ==> prefix@[j] == data@[j],
        decreases prefix.len() - i,
    {
        if prefix[i] != data[i] {
            assert(prefix@[i as int] != data@.subrange(0, prefix@.len() as int)[i as int]);
            return false;
        }
        i = i + 1;
    }
    assert(prefix@ =~= data@.subrange(0, prefix@.len() as int));
    true
}

/// A copy of `data[from..to]`.
pub fn copy_range(data: &[u8], from: usize, to: usize) -> (copy: Vec<u8>)
    requires
        from <= to <= data@.len(),
    ensures
        copy@ == data@.subrange(from as int, to as int),
{
    let mut copy: Vec<u8> = Vec::with_capacity(to - from);
    let mut i: usize = from;
    while i < to
        invariant
            from <= i <= to <= data@.len(),
            copy@ == data@.subrange(from as int, i as int),
        decreases to - i,
    {
        copy.push(data[i]);
        i = i + 1;
        assert(copy@ =~= data@.subrange(from as int, i as int));
    }
    copy
}

/// The spans of the widths in use.
pub proof fn lemma_byte_spans()
    ensures
        byte_span(1) == 0x100,
        byte_span(2) == 0x1_0000,
        byte_span(4) == 0x1_0000_0000,
        byte_span(8) == 0x1_0000_0000_0000_0000,
{
    reveal_with_fuel(byte_span, 9);
}

/// A number that fits its width is what its bytes stand for.
pub proof fn lemma_le_round_trip(n: nat, width: nat)
    requires
        n < byte_span(width),
    ensures
        le_bytes(n, width).len() == width,
        le_value(le_bytes(n, width)) == n,
    decreases width,
{
    if width > 0 {
        let rest = le_bytes(n / 256, (width - 1) as nat);
        assert(n / 256 < byte_span((width - 1) as nat));
        lemma_le_round_trip(n / 256, (width - 1) as nat);
        assert(le_bytes(n, width).skip(1) =~= rest);
    }
}

/// Bytes stand for a number below their span.
pub proof fn lemma_le_value_bound(bytes: Seq<u8>)
    ensures
        le_value(bytes) < byte_span(bytes.len()),
    decreases bytes.len(),
{
    if bytes.len() > 0 {
        lemma_le_value_bound(bytes.skip(1));
    }
}

/// A wider span is larger.
proof fn lemma_byte_span_grows(narrow: nat, wide: nat)
    requires
        narrow <= wide,
    ensures
        byte_span(narrow) <= byte_span(wide),
    decreases wide,
{
    if narrow < wide {
        lemma_byte_span_grows(narrow, (wide - 1) as nat);
    }
}

/// The number that `width` bytes of `data` at `from` stand for, lowest first.
pub fn read_le(data: &[u8], from: usize, width: usize) -> (n: u64)
    requires
        width <= 8,
        from + width <= data.len(),
    ensures
        n == le_value(data@.subrange(from as int, from + width)),
        n < byte_span(width as nat),
{
    let end: usize = from + width;
    let mut n: u64 = 0;
    let mut i: usize = end;
    while i > from
        invariant
            from <= i <= end <= data@.len(),
            end - from <= 8,
            n == le_value(data@.subrange(i as int, end as int)),
        decreases i - from,
    {
        i = i - 1;
        proof {
            let part = data@.subrange(i as int, end as int);
            assert(part.skip(1) =~= data@.subrange(i + 1, end as int));
            lemma_le_value_bound(part);
            lemma_byte_span_grows(part.len(), 8);
            lemma_byte_spans();
        }
        n = data[i] as u64 + 256 * n;
    }
    proof {
        lemma_le_value_bound(data@.subrange(from as int, end as int));
    }
    n
}

/// Bytes are those of the number they stand for.
pub proof fn lemma_le_bytes_of_value(bytes: Seq<u8>)
    ensures
        le_bytes(le_value(bytes), bytes.len()) == bytes,
    decreases bytes.len(),
{
    if bytes.len() > 0 {
        let rest = bytes.skip(1);
        lemma_le_bytes_of_value(rest);
        assert(le_value(bytes) % 256 == bytes[0]);
        assert(le_value(bytes) / 256 == le_value(rest));
        assert(le_bytes(le_value(bytes), bytes.len()) =~= bytes);
    } else {
        assert(le_bytes(le_value(bytes), bytes.len()) =~= bytes);
    }
}

/// Numbers are written lowest byte first: one byte is the number itself, and of a longer
/// run the first byte is the remainder by 256 and the others are the bytes of the
/// quotient.
pub proof fn law_numbers_are_written_lowest_byte_first(n: nat, width: nat)
    requires
        width > 0,
    ensures
        le_bytes(n, width).len() == width,
        le_bytes(n, width)[0] == n % 256,
        le_bytes(n, width).skip(1) == le_bytes(n / 256, (width - 1) as nat),
        le_bytes(n, 0) == Seq::<u8>::empty(),
        le_value(Seq::<u8>::empty()) == 0,
        le_value(le_bytes(n, width)) == le_bytes(n, width)[0] + 256 * le_value(
            le_bytes(n, width).skip(1),
        ),
    decreases width,
{
    if width > 1 {
        law_numbers_are_written_lowest_byte_first(n / 256, (width - 1) as nat);
    }
    assert(le_bytes(n, width).skip(1) =~= le_bytes(n / 256, (width - 1) as nat));
}

/// A list of buffers is shown buffer by buffer, in the same order.
pub proof fn law_buffers_are_shown_in_place(buffers: Seq<Bytes>, i: int)
    ensures
        all_contents(buffers).len() == buffers.len(),
        0 <= i < buffers.len() ==> all_contents(buffers)[i] == bytes_contents(buffers[i]),
{
}

} // verus!
