//! Values as lists of payload chunks.

use bytes::Bytes;
use vstd::prelude::*;

use crate::buf;

verus! {

/// A value cut into chunks of `slot` bytes; the last one may be shorter. An empty
/// value still has one chunk.
pub open spec fn chunk_list(value: Seq<u8>, slot: nat) -> Seq<Seq<u8>>
    decreases value.len(),
{
    if slot == 0 || value.len() <= slot {
        seq![value]
    } else {
        seq![value.take(slot as int)] + chunk_list(value.skip(slot as int), slot)
    }
}

/// Chunks one behind the other.
pub open spec fn joined(chunks: Seq<Seq<u8>>) -> Seq<u8>
    decreases chunks.len(),
{
    if chunks.len() == 0 {
        seq![]
    } else {
        joined(chunks.drop_last()) + chunks.last()
    }
}

/// Cut a value into chunks of `slot` bytes.
pub fn cut(value: &[u8], slot: usize) -> (chunks: Vec<Bytes>)
    requires
        slot > 0,
    ensures
        buf::all_contents(chunks@) == chunk_list(value@, slot as nat),
{
    let mut chunks: Vec<Bytes> = Vec::new();
    let mut start: usize = 0;
    proof {
        assert(value@.skip(0) =~= value@);
        assert(buf::all_contents(chunks@) + chunk_list(value@, slot as nat) =~= chunk_list(
            value@,
            slot as nat,
        ));
    }
    while value.len() - start > slot
        invariant
            slot > 0,
            start <= value@.len(),
            buf::all_contents(chunks@) + chunk_list(value@.skip(start as int), slot as nat)
                == chunk_list(value@, slot as nat),
        decreases value@.len() - start,
    {
        let ghost before = chunks@;
        let part = vstd::slice::slice_subrange(value, start, start + slot);
        chunks.push(buf::bytes_from_slice(part));
        proof {
            let rest = value@.skip(start as int);
            assert(rest.take(slot as int) =~= part@);
            assert(rest.skip(slot as int) =~= value@.skip(start + slot));
            assert(buf::all_contents(chunks@) =~= buf::all_contents(before).push(part@));
            assert(buf::all_contents(chunks@) + chunk_list(
                value@.skip(start + slot),
                slot as nat,
            ) =~= buf::all_contents(before) + chunk_list(rest, slot as nat));
        }
        start = start + slot;
    }
    let ghost before = chunks@;
    let part = vstd::slice::slice_subrange(value, start, value.len());
    chunks.push(buf::bytes_from_slice(part));
    proof {
        assert(value@.skip(start as int) =~= part@);
        assert(buf::all_contents(chunks@) =~= buf::all_contents(before) + seq![part@]);
    }
    chunks
}

/// Every value has at least one chunk, and no chunk is longer than a slot.
pub proof fn lemma_chunk_sizes(value: Seq<u8>, slot: nat)
    requires
        slot > 0,
    ensures
        chunk_list(value, slot).len() > 0,
        forall|i: int|
            0 <= i < chunk_list(value, slot).len() ==> (#[trigger] chunk_list(value, slot)[i]).len()
                <= slot,
    decreases value.len(),
{
    if value.len() > slot {
        let rest = value.skip(slot as int);
        lemma_chunk_sizes(rest, slot);
        assert forall|i: int| 0 <= i < chunk_list(value, slot).len() implies (
        #[trigger] chunk_list(value, slot)[i]).len() <= slot by {
            if i > 0 {
                assert(chunk_list(value, slot)[i] == chunk_list(rest, slot)[i - 1]);
            }
        }
    }
}

/// A value that fits a number of slots needs no more chunks than that.
pub proof fn lemma_chunk_count(value: Seq<u8>, slot: nat, count: nat)
    requires
        slot > 0,
        count > 0,
        value.len() <= count * slot,
    ensures
        chunk_list(value, slot).len() <= count,
    decreases value.len(),
{
    if value.len() > slot {
        let rest = value.skip(slot as int);
        assert(count > 1) by (nonlinear_arith)
            requires
                value.len() <= count * slot,
                value.len() > slot,
                count > 0,
        ;
        assert(rest.len() <= (count - 1) * slot) by (nonlinear_arith)
            requires
                value.len() <= count * slot,
                rest.len() == value.len() - slot,
        ;
        lemma_chunk_count(rest, slot, (count - 1) as nat);
    }
}

/// Joining lists of chunks joins what they join to.
proof fn lemma_joined_concat(a: Seq<Seq<u8>>, b: Seq<Seq<u8>>)
    ensures
        joined(a + b) == joined(a) + joined(b),
    decreases b.len(),
{
    if b.len() == 0 {
        assert(a + b =~= a);
        assert(joined(a) + joined(b) =~= joined(a));
    } else {
        lemma_joined_concat(a, b.drop_last());
        assert((a + b).drop_last() =~= a + b.drop_last());
        assert((a + b).last() == b.last());
        assert(joined(a + b) =~= joined(a) + joined(b));
    }
}

proof fn lemma_joined_one(chunk: Seq<u8>)
    ensures
        joined(seq![chunk]) == chunk,
{
    reveal_with_fuel(joined, 2);
    assert(seq![chunk].drop_last() =~= Seq::<Seq<u8>>::empty());
    assert(joined(seq![chunk]) =~= chunk);
}

/// Cutting loses nothing: the chunks of a value, one behind the other, are the
/// value.
pub proof fn law_chunks_join_to_their_value(value: Seq<u8>, slot: nat)
    ensures
        joined(chunk_list(value, slot)) == value,
    decreases value.len(),
{
    if slot == 0 || value.len() <= slot {
        lemma_joined_one(value);
    } else {
        let first = seq![value.take(slot as int)];
        let rest = value.skip(slot as int);
        law_chunks_join_to_their_value(rest, slot);
        lemma_joined_concat(first, chunk_list(rest, slot));
        lemma_joined_one(value.take(slot as int));
        assert(value.take(slot as int) + rest =~= value);
    }
}

/// Each chunk is the next stretch of the value: chunk `i` begins `i` slots into the value
/// and is a whole slot, but for the last one, which is the rest. There are as many chunks
/// as slots are needed, and one for an empty value.
pub proof fn law_chunks_are_stretches_of_the_value(value: Seq<u8>, slot: nat, i: int)
    requires
        slot > 0,
        0 <= i < chunk_list(value, slot).len(),
    ensures
        ({
            let count = chunk_list(value, slot).len() as int;
            let end = if i == count - 1 {
                value.len() as int
            } else {
                (i + 1) * slot
            };
            &&& 0 <= i * slot <= end <= value.len()
            &&& chunk_list(value, slot)[i] == value.subrange(i * slot, end)
            &&& value.len() > 0 ==> (count - 1) * slot < value.len() <= count * slot
            &&& value.len() == 0 ==> count == 1
        }),
    decreases value.len(),
{
    let count = chunk_list(value, slot).len() as int;
    if value.len() <= slot {
        assert(chunk_list(value, slot).len() == 1);
        assert(value.subrange(0, value.len() as int) =~= value);
        assert(i * slot == 0) by (nonlinear_arith)
            requires
                i == 0,
        ;
        assert((count - 1) * slot == 0 && count * slot == slot) by (nonlinear_arith)
            requires
                count == 1,
        ;
    } else {
        let rest = value.skip(slot as int);
        let more = chunk_list(rest, slot);
        assert(chunk_list(value, slot) == seq![value.take(slot as int)] + more);
        assert(count == more.len() + 1);
        lemma_chunks_exist(rest, slot);
        law_chunks_are_stretches_of_the_value(rest, slot, if i == 0 {
            0
        } else {
            i - 1
        });
        assert((count - 1) * slot == (more.len() - 1) * slot + slot) by (nonlinear_arith)
            requires
                count == more.len() + 1,
        ;
        assert(count * slot == more.len() * slot + slot) by (nonlinear_arith)
            requires
                count == more.len() + 1,
        ;
        if i == 0 {
            assert(i * slot == 0 && (i + 1) * slot == slot) by (nonlinear_arith)
                requires
                    i == 0,
            ;
            assert(value.take(slot as int) =~= value.subrange(0, slot as int));
        } else {
            assert(i * slot == (i - 1) * slot + slot && (i + 1) * slot == i * slot + slot)
                by (nonlinear_arith);
            let end = if i == count - 1 {
                value.len() as int
            } else {
                (i + 1) * slot
            };
            assert(more[i - 1] == rest.subrange((i - 1) * slot, end - slot));
            assert(value.subrange(i * slot, end) =~= rest.subrange((i - 1) * slot, end - slot));
        }
    }
}

proof fn lemma_chunks_exist(value: Seq<u8>, slot: nat)
    ensures
        chunk_list(value, slot).len() > 0,
    decreases value.len(),
{
    if slot > 0 && value.len() > slot {
        lemma_chunks_exist(value.skip(slot as int), slot);
    }
}

/// Joining is plain concatenation: no chunk gives nothing, and one more chunk adds its
/// bytes at the end.
pub proof fn law_joining_is_concatenation(chunks: Seq<Seq<u8>>, chunk: Seq<u8>)
    ensures
        joined(Seq::<Seq<u8>>::empty()) == Seq::<u8>::empty(),
        joined(chunks.push(chunk)) == joined(chunks) + chunk,
{
    assert(chunks.push(chunk).drop_last() =~= chunks);
}

} // verus!
