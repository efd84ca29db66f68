//! What a bounded local cache keeps, and what it gives up.

use vstd::prelude::*;

use super::local;
use super::local::{EntryView, LocalView, OutcomeView, ReadView};
use super::protocol::{CacheRevision, MutationView, PayloadRef};

verus! {

/// The place of a key is the one entry that has it.
proof fn lemma_place_is(local: LocalView, at: int)
    requires
        local.consistent(),
        0 <= at < local.entries.len(),
    ensures
        local::place_of(local.entries, local.entries[at].key) == Some(at),
{
    let key = local.entries[at].key;
    local::lemma_place(local.entries, key);
    match local::place_of(local.entries, key) {
        Some(found) => {
            if found < at {
                assert(local.entries[found].key != local.entries[at].key);
            }
            if found > at {
                assert(local.entries[at].key != local.entries[found].key);
            }
        },
        None => {},
    }
}

proof fn lemma_no_place(local: LocalView, key: Seq<u8>)
    requires
        forall|i: int| 0 <= i < local.entries.len() ==> (#[trigger] local.entries[i]).key != key,
    ensures
        local::place_of(local.entries, key) is None,
{
    local::lemma_place(local.entries, key);
}

/// A read of a key with an entry: a value whose time has not come is a hit with its
/// revision and expiry, anything else is a miss. Either way the entry becomes the most
/// recently used one, a value whose time has come leaves a missing marker with the same
/// revision, and the other entries keep their order.
pub proof fn law_a_read_serves_the_entry(local: LocalView, at: int, now_ms: u64)
    requires
        local.consistent(),
        0 <= at < local.entries.len(),
    ensures
        ({
            let entry = local.entries[at];
            let good = match entry.held {
                Some((_, Some(expires_at_ms))) => now_ms < expires_at_ms,
                Some((_, None)) => true,
                None => false,
            };
            let after = local.after_read(entry.key, now_ms);
            &&& !good ==> local.answer(entry.key, now_ms) == ReadView::Miss
            &&& good ==> (entry.held matches Some((value, expires_at_ms)) && local.answer(
                entry.key,
                now_ms,
            ) == (ReadView::Hit { value, revision: entry.revision, expires_at_ms }))
            &&& after.entries.len() == local.entries.len()
            &&& after.entries.drop_last() == local.entries.remove(at)
            &&& after.entries.last() == (EntryView {
                key: entry.key,
                revision: entry.revision,
                held: if good {
                    entry.held
                } else {
                    None
                },
            })
            &&& after.floor == local.floor
            &&& after.capacity == local.capacity
            &&& after.coherent == local.coherent
        }),
{
    lemma_place_is(local, at);
    let after = local.after_read(local.entries[at].key, now_ms);
    assert(after.entries.drop_last() =~= local.entries.remove(at));
}

/// A read of a key without an entry is a miss, or asks for a resynchronisation where
/// nothing held can be trusted, and changes nothing.
pub proof fn law_a_read_of_an_unknown_key_misses(local: LocalView, key: Seq<u8>, now_ms: u64)
    requires
        forall|i: int| 0 <= i < local.entries.len() ==> (#[trigger] local.entries[i]).key != key,
    ensures
        local.answer(key, now_ms) == (if local.coherent {
            ReadView::Miss
        } else {
            ReadView::ResyncRequired
        }),
        local.after_read(key, now_ms) == local,
{
    lemma_no_place(local, key);
}

/// A put or a delete of a key with an entry is news exactly where its sequence is higher,
/// or equal with a higher identifier. Then its entry replaces the old one at the recent
/// end, and nothing is evicted; otherwise nothing changes.
pub proof fn law_news_of_a_known_key_replaces_its_entry(
    local: LocalView,
    at: int,
    revision: CacheRevision,
    payload: PayloadRef,
    expires_at_ms: Option<u64>,
    value: Seq<u8>,
)
    requires
        local.consistent(),
        0 <= at < local.entries.len(),
    ensures
        ({
            let key = local.entries[at].key;
            let known = local.entries[at].revision;
            let news = revision.sequence > known.sequence || (revision.sequence == known.sequence
                && revision.mutation_id.spec_raw() > known.mutation_id.spec_raw());
            let put = MutationView::Put { key, revision, payload, expires_at_ms };
            let delete = MutationView::Delete { key, revision };
            let rest = LocalView { entries: local.entries.remove(at), ..local };
            &&& news ==> {
                &&& local.outcome(put, Some(value)) is Applied
                &&& local.applied(put, Some(value)) == (LocalView {
                    entries: rest.entries.push(
                        EntryView { key, revision, held: Some((value, expires_at_ms)) },
                    ),
                    ..local
                })
                &&& local.outcome(put, None) == (OutcomeView::PayloadUnavailable { key })
                &&& local.applied(put, None) == (LocalView {
                    entries: rest.entries.push(EntryView { key, revision, held: None }),
                    ..local
                })
                &&& local.outcome(delete, None) is Applied
                &&& local.applied(delete, None) == (LocalView {
                    entries: rest.entries.push(EntryView { key, revision, held: None }),
                    ..local
                })
            }
            &&& !news ==> {
                &&& local.outcome(put, Some(value)) is Ignored
                &&& local.applied(put, Some(value)) == local
                &&& local.outcome(put, None) is Ignored
                &&& local.applied(put, None) == local
                &&& local.outcome(delete, None) is Ignored
                &&& local.applied(delete, None) == local
            }
        }),
{
    lemma_place_is(local, at);
}

/// A put or a delete of a key without an entry is news exactly where the cache is
/// trusted and its sequence lies above the floor. Then its entry is added at the recent
/// end; where the cache was full, the least recently used entry leaves, and the floor
/// rises to its sequence if that is higher. Otherwise nothing changes.
pub proof fn law_news_of_an_unknown_key_adds_an_entry(
    local: LocalView,
    key: Seq<u8>,
    revision: CacheRevision,
    payload: PayloadRef,
    expires_at_ms: Option<u64>,
    value: Seq<u8>,
)
    requires
        local.consistent(),
        forall|i: int| 0 <= i < local.entries.len() ==> (#[trigger] local.entries[i]).key != key,
    ensures
        ({
            let news = local.coherent && revision.sequence > local.floor;
            let put = MutationView::Put { key, revision, payload, expires_at_ms };
            let delete = MutationView::Delete { key, revision };
            let full = local.entries.len() == local.capacity;
            let room = LocalView {
                capacity: local.capacity,
                floor: if full && local.entries[0].revision.sequence > local.floor {
                    local.entries[0].revision.sequence
                } else {
                    local.floor
                },
                coherent: local.coherent,
                entries: if full {
                    local.entries.skip(1)
                } else {
                    local.entries
                },
            };
            &&& news ==> {
                &&& local.outcome(put, Some(value)) is Applied
                &&& local.applied(put, Some(value)) == (LocalView {
                    entries: room.entries.push(
                        EntryView { key, revision, held: Some((value, expires_at_ms)) },
                    ),
                    ..room
                })
                &&& local.outcome(put, None) == (OutcomeView::PayloadUnavailable { key })
                &&& local.applied(put, None) == (LocalView {
                    entries: room.entries.push(EntryView { key, revision, held: None }),
                    ..room
                })
                &&& local.outcome(delete, None) is Applied
                &&& local.applied(delete, None) == (LocalView {
                    entries: room.entries.push(EntryView { key, revision, held: None }),
                    ..room
                })
            }
            &&& !news ==> {
                &&& local.outcome(put, Some(value)) is Ignored
                &&& local.applied(put, Some(value)) == local
                &&& local.outcome(put, None) is Ignored
                &&& local.applied(put, None) == local
                &&& local.outcome(delete, None) is Ignored
                &&& local.applied(delete, None) == local
            }
        }),
{
    lemma_no_place(local, key);
    if local.entries.len() == local.capacity {
        assert(local.entries.remove(0) =~= local.entries.skip(1));
    }
}

/// Survivors are what a filter keeps.
proof fn lemma_survivors_filter(
    entries: Seq<EntryView>,
    reset: CacheRevision,
    kept: spec_fn(EntryView) -> bool,
)
    requires
        forall|entry: EntryView| #[trigger] kept(entry) == !reset.newer(entry.revision),
    ensures
        local::survivors(entries, reset) == entries.filter(kept),
    decreases entries.len(),
{
    reveal(Seq::filter);
    if entries.len() > 0 {
        lemma_survivors_filter(entries.drop_last(), reset, kept);
        assert(kept(entries.last()) == !reset.newer(entries.last().revision));
    } else {
        assert(entries.filter(kept) =~= local::survivors(entries, reset));
    }
}

/// A reset drops exactly what is older and keeps the rest in order: of a trusted cache,
/// the entries with a lower sequence, or the same with a lower identifier, leave; the
/// floor rises to the sequence of the reset if that is higher. It counts as applied where
/// it dropped an entry or lies above the floor. A cache that cannot be trusted ignores it.
pub proof fn law_a_reset_drops_what_is_older(local: LocalView, revision: CacheRevision)
    ensures
        ({
            let reset = MutationView::Reset { revision };
            let after = local.applied(reset, None);
            let kept = local.entries.filter(
                |entry: EntryView|
                    !(revision.sequence > entry.revision.sequence || (revision.sequence
                        == entry.revision.sequence && revision.mutation_id.spec_raw()
                        > entry.revision.mutation_id.spec_raw())),
            );
            &&& local.coherent ==> {
                &&& after.entries == kept
                &&& after.floor == (if revision.sequence > local.floor {
                    revision.sequence
                } else {
                    local.floor
                })
                &&& after.coherent
                &&& after.capacity == local.capacity
                &&& local.outcome(reset, None) is Applied <==> revision.sequence > local.floor
                    || kept.len() < local.entries.len()
                &&& !(local.outcome(reset, None) is Applied) ==> local.outcome(
                    reset,
                    None,
                ) is Ignored
            }
            &&& !local.coherent ==> after == local && local.outcome(reset, None) is Ignored
        }),
{
    let pred = |entry: EntryView|
        !(revision.sequence > entry.revision.sequence || (revision.sequence
            == entry.revision.sequence && revision.mutation_id.spec_raw()
            > entry.revision.mutation_id.spec_raw()));
    lemma_survivors_filter(local.entries, revision, pred);
}

/// Losing track empties the cache: nothing is held and nothing trusted, and the floor
/// and the capacity stay.
pub proof fn law_a_distrusted_cache_is_empty(local: LocalView)
    ensures
        local.distrusted().entries.len() == 0,
        !local.distrusted().coherent,
        local.distrusted().floor == local.floor,
        local.distrusted().capacity == local.capacity,
{
}

/// A cache that starts afresh is trusted and empty: it holds nothing, misses on every key,
/// and takes in what lies above its floor.
pub proof fn law_a_fresh_cache_is_trusted_and_empty(
    capacity: nat,
    floor: u64,
    key: Seq<u8>,
    revision: CacheRevision,
    now_ms: u64,
)
    ensures
        ({
            let local = LocalView::fresh(capacity, floor);
            &&& local.coherent
            &&& local.entries.len() == 0
            &&& local.floor == floor
            &&& local.capacity == capacity
            &&& local.answer(key, now_ms) == ReadView::Miss
            &&& local.accepts(key, revision) <==> revision.sequence > floor
        }),
{
    lemma_no_place(LocalView::fresh(capacity, floor), key);
}

} // verus!
