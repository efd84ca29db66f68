//! Why a local hit is never stale.

use vstd::prelude::*;

use super::local;
use super::local::{EntryView, LocalView, OutcomeView, ReadView};
use super::protocol;
use super::protocol::MutationView;

verus! {

/// A mutation as one process has seen it, with the bytes that came with it.
pub struct Observed {
    pub mutation: MutationView,
    pub value: Option<Seq<u8>>,
}

/// Nothing seen is newer than what the cache knows: neither than the entry of the
/// key that it affects, nor, for keys without an entry, than the floor.
pub open spec fn current(local: LocalView, seen: Set<Observed>) -> bool {
    local.coherent ==> {
        &&& forall|i: int, observed: Observed|
            0 <= i < local.entries.len() && #[trigger] seen.contains(observed)
                && observed.mutation.affects((#[trigger] local.entries[i]).key)
                ==> !observed.mutation.revision().newer(local.entries[i].revision)
        &&& forall|observed: Observed, key: Seq<u8>|
            seen.contains(observed) && #[trigger] observed.mutation.affects(key) && local::place_of(
                local.entries,
                key,
            ) is None ==> observed.mutation.revision().sequence <= local.floor
    }
}

/// Whether an entry holds the bytes of an observed put.
pub open spec fn holds(entry: EntryView, observed: Observed) -> bool {
    match (observed.mutation, observed.value) {
        (MutationView::Put { key, revision, expires_at_ms, .. }, Some(value)) => {
            &&& key == entry.key
            &&& revision == entry.revision
            &&& entry.held == Some((value, expires_at_ms))
        },
        _ => false,
    }
}

/// Every value held is that of a put that was seen.
pub open spec fn sourced(local: LocalView, seen: Set<Observed>) -> bool {
    forall|i: int|
        0 <= i < local.entries.len() && (#[trigger] local.entries[i]).held is Some
            ==> exists|observed: Observed| #[trigger]
            seen.contains(observed) && holds(local.entries[i], observed)
}

/// A key without an entry in the larger list has none in the smaller one.
proof fn lemma_absent(entries: Seq<EntryView>, key: Seq<u8>)
    ensures
        local::place_of(entries, key) is None <==> forall|i: int|
            0 <= i < entries.len() ==> (#[trigger] entries[i]).key != key,
{
    local::lemma_place(entries, key);
}

/// Two entries of one key are one entry.
proof fn lemma_entry_of(local: LocalView, at: int, key: Seq<u8>)
    requires
        local.consistent(),
        0 <= at < local.entries.len(),
        local.entries[at].key == key,
    ensures
        local::place_of(local.entries, key) == Some(at),
{
    local::lemma_place(local.entries, key);
    let found = local::place_of(local.entries, key)->0;
    if found != at {
        if found < at {
            assert(local.entries[found].key != local.entries[at].key);
        } else {
            assert(local.entries[at].key != local.entries[found].key);
        }
    }
}

/// Which entries a cache has after one was placed.
proof fn lemma_placed_entries(local: LocalView, entry: EntryView)
    requires
        local.consistent(),
        local.coherent,
    ensures
        ({
            let after = local.placed(entry);
            &&& after.entries.len() > 0
            &&& after.entries.last() == entry
            &&& forall|i: int|
                0 <= i < after.entries.len() - 1 ==> local.entries.contains(
                    #[trigger] after.entries[i],
                ) && after.entries[i].key != entry.key
            &&& forall|i: int|
                0 <= i < local.entries.len() && (#[trigger] local.entries[i]).key != entry.key ==> (
                after.entries.contains(local.entries[i]) || local.entries[i].revision.sequence
                    <= after.floor)
            &&& after.floor >= local.floor
        }),
{
    local::lemma_place(local.entries, entry.key);
    let after = local.placed(entry);
    let place = local::place_of(local.entries, entry.key);
    assert forall|i: int| 0 <= i < after.entries.len() - 1 implies local.entries.contains(
        #[trigger] after.entries[i],
    ) && after.entries[i].key != entry.key by {
        match place {
            Some(at) => {
                let from = if i < at {
                    i
                } else {
                    i + 1
                };
                assert(after.entries[i] == local.entries[from]);
                if from < at {
                    assert(local.entries[from].key != local.entries[at].key);
                } else {
                    assert(local.entries[at].key != local.entries[from].key);
                }
            },
            None => {
                if local.entries.len() < local.capacity {
                    assert(after.entries[i] == local.entries[i]);
                } else {
                    assert(after.entries[i] == local.entries[i + 1]);
                }
            },
        }
    }
    assert forall|i: int|
        0 <= i < local.entries.len() && (#[trigger] local.entries[i]).key != entry.key implies (
    after.entries.contains(local.entries[i]) || local.entries[i].revision.sequence
        <= after.floor) by {
        match place {
            Some(at) => {
                let to = if i < at {
                    i
                } else {
                    i - 1
                };
                assert(after.entries[to] == local.entries[i]);
            },
            None => {
                if local.entries.len() < local.capacity {
                    assert(after.entries[i] == local.entries[i]);
                } else if i > 0 {
                    assert(after.entries[i - 1] == local.entries[i]);
                }
            },
        }
    }
}

/// Placing an entry that is at least as new as everything seen of its key, and
/// then having seen its mutation, leaves the cache current.
proof fn lemma_placed_current(
    local: LocalView,
    entry: EntryView,
    seen: Set<Observed>,
    observed: Observed,
)
    requires
        local.consistent(),
        local.coherent,
        current(local, seen),
        local.accepts(entry.key, entry.revision),
        observed.mutation.revision() == entry.revision,
        !(observed.mutation is Reset),
        observed.mutation.affects(entry.key),
    ensures
        current(local.placed(entry), seen.insert(observed)),
{
    let after = local.placed(entry);
    let more = seen.insert(observed);
    lemma_placed_entries(local, entry);
    lemma_absent(local.entries, entry.key);
    assert forall|i: int, other: Observed|
        0 <= i < after.entries.len() && #[trigger] more.contains(other) && other.mutation.affects(
            (#[trigger] after.entries[i]).key,
        ) implies !other.mutation.revision().newer(after.entries[i].revision) by {
        if i < after.entries.len() - 1 {
            let at = choose|at: int|
                0 <= at < local.entries.len() && local.entries[at] == after.entries[i];
            assert(local.entries[at].key == after.entries[i].key);
            assert(seen.contains(other));
        } else {
            assert(after.entries[i] == entry);
            if other != observed {
                assert(seen.contains(other));
                match local::place_of(local.entries, entry.key) {
                    Some(at) => {
                        local::lemma_place(local.entries, entry.key);
                        assert(!other.mutation.revision().newer(local.entries[at].revision));
                        protocol::law_revisions_are_totally_ordered(
                            other.mutation.revision(),
                            entry.revision,
                            local.entries[at].revision,
                        );
                    },
                    None => {
                        assert(other.mutation.affects(entry.key));
                    },
                }
            }
        }
    }
    assert forall|other: Observed, key: Seq<u8>|
        more.contains(other) && #[trigger] other.mutation.affects(key) && local::place_of(
            after.entries,
            key,
        ) is None implies other.mutation.revision().sequence <= after.floor by {
        lemma_absent(after.entries, key);
        let last = after.entries.len() - 1;
        assert(after.entries[last] == entry);
        assert(key != entry.key);
        assert(seen.contains(other));
        local::lemma_place(local.entries, key);
        match local::place_of(local.entries, key) {
            Some(at) => {
                assert(local.entries[at].key != entry.key);
                if after.entries.contains(local.entries[at]) {
                    let to = choose|to: int|
                        0 <= to < after.entries.len() && after.entries[to] == local.entries[at];
                    assert(after.entries[to].key == key);
                }
                assert(!other.mutation.revision().newer(local.entries[at].revision));
            },
            None => {},
        }
    }
}

proof fn lemma_ignored_current(
    local: LocalView,
    key: Seq<u8>,
    seen: Set<Observed>,
    observed: Observed,
)
    requires
        local.consistent(),
        current(local, seen),
        !local.accepts(key, observed.mutation.revision()),
        !(observed.mutation is Reset),
        observed.mutation.affects(key),
    ensures
        current(local, seen.insert(observed)),
{
    let more = seen.insert(observed);
    if local.coherent {
        assert forall|i: int, other: Observed|
            0 <= i < local.entries.len() && #[trigger] more.contains(other)
                && other.mutation.affects((#[trigger] local.entries[i]).key) implies !other.mutation
            .revision().newer(local.entries[i].revision) by {
            if other == observed {
                assert(local.entries[i].key == key);
                lemma_entry_of(local, i, key);
            } else {
                assert(seen.contains(other));
            }
        }
        assert forall|other: Observed, absent: Seq<u8>|
            more.contains(other) && #[trigger] other.mutation.affects(absent) && local::place_of(
                local.entries,
                absent,
            ) is None implies other.mutation.revision().sequence <= local.floor by {
            if other == observed {
                assert(absent == key);
            } else {
                assert(seen.contains(other));
            }
        }
    }
}

proof fn lemma_reset_current(local: LocalView, seen: Set<Observed>, observed: Observed)
    requires
        local.consistent(),
        current(local, seen),
        observed.mutation is Reset,
    ensures
        current(local.after_reset(observed.mutation.revision()), seen.insert(observed)),
{
    let revision = observed.mutation.revision();
    let after = local.after_reset(revision);
    let more = seen.insert(observed);
    if local.coherent {
        local::lemma_survivors(local.entries, revision);
        assert forall|i: int, other: Observed|
            0 <= i < after.entries.len() && #[trigger] more.contains(other)
                && other.mutation.affects((#[trigger] after.entries[i]).key) implies !other.mutation
            .revision().newer(after.entries[i].revision) by {
            if other != observed {
                assert(seen.contains(other));
                let at = choose|at: int|
                    0 <= at < local.entries.len() && local.entries[at] == after.entries[i];
                assert(local.entries[at].key == after.entries[i].key);
            }
        }
        assert forall|other: Observed, key: Seq<u8>|
            more.contains(other) && #[trigger] other.mutation.affects(key) && local::place_of(
                after.entries,
                key,
            ) is None implies other.mutation.revision().sequence <= after.floor by {
            if other != observed {
                assert(seen.contains(other));
                lemma_absent(after.entries, key);
                local::lemma_place(local.entries, key);
                match local::place_of(local.entries, key) {
                    Some(at) => {
                        assert(!other.mutation.revision().newer(local.entries[at].revision));
                        if !revision.newer(local.entries[at].revision) {
                            assert(after.entries.contains(local.entries[at]));
                            let to = choose|to: int|
                                0 <= to < after.entries.len() && after.entries[to]
                                    == local.entries[at];
                            assert(after.entries[to].key == key);
                        }
                    },
                    None => {},
                }
            }
        }
    }
}

/// Applying a mutation keeps the cache consistent and current, in whatever order
/// mutations arrive and whatever is evicted on the way.
pub proof fn law_mutations_keep_the_cache_current(
    local: LocalView,
    seen: Set<Observed>,
    observed: Observed,
)
    requires
        local.consistent(),
        current(local, seen),
    ensures
        local.applied(observed.mutation, observed.value).consistent(),
        current(local.applied(observed.mutation, observed.value), seen.insert(observed)),
{
    match observed.mutation {
        MutationView::Put { key, revision, expires_at_ms, .. } => {
            if local.accepts(key, revision) {
                let entry = EntryView {
                    key,
                    revision,
                    held: match observed.value {
                        Some(value) => Some((value, expires_at_ms)),
                        None => None,
                    },
                };
                local::lemma_placed_consistent(local, entry);
                lemma_placed_current(local, entry, seen, observed);
            } else {
                lemma_ignored_current(local, key, seen, observed);
            }
        },
        MutationView::Delete { key, revision } => {
            if local.accepts(key, revision) {
                let entry = EntryView { key, revision, held: None };
                local::lemma_placed_consistent(local, entry);
                lemma_placed_current(local, entry, seen, observed);
            } else {
                lemma_ignored_current(local, key, seen, observed);
            }
        },
        MutationView::Reset { revision } => {
            lemma_reset_current(local, seen, observed);
            local::lemma_survivors_distinct(local.entries, revision);
            local::lemma_survivors(local.entries, revision);
        },
    }
}

proof fn lemma_placed_sourced(
    local: LocalView,
    entry: EntryView,
    seen: Set<Observed>,
    observed: Observed,
)
    requires
        local.consistent(),
        local.coherent,
        sourced(local, seen),
        entry.held is Some ==> holds(entry, observed),
    ensures
        sourced(local.placed(entry), seen.insert(observed)),
{
    let after = local.placed(entry);
    let more = seen.insert(observed);
    lemma_placed_entries(local, entry);
    assert forall|i: int|
        0 <= i < after.entries.len() && (
        #[trigger] after.entries[i]).held is Some implies exists|source: Observed| #[trigger]
        more.contains(source) && holds(after.entries[i], source) by {
        if i < after.entries.len() - 1 {
            let at = choose|at: int|
                0 <= at < local.entries.len() && local.entries[at] == after.entries[i];
            assert(local.entries[at].held is Some);
            let source = choose|source: Observed| #[trigger]
                seen.contains(source) && holds(local.entries[at], source);
            assert(more.contains(source));
        } else {
            assert(after.entries[i] == entry);
            assert(more.contains(observed));
        }
    }
}

proof fn lemma_more_sourced(local: LocalView, seen: Set<Observed>, observed: Observed)
    requires
        sourced(local, seen),
    ensures
        sourced(local, seen.insert(observed)),
{
    let more = seen.insert(observed);
    assert forall|i: int|
        0 <= i < local.entries.len() && (
        #[trigger] local.entries[i]).held is Some implies exists|source: Observed| #[trigger]
        more.contains(source) && holds(local.entries[i], source) by {
        let source = choose|source: Observed| #[trigger]
            seen.contains(source) && holds(local.entries[i], source);
        assert(more.contains(source));
    }
}

/// Applying a mutation keeps every value held the value of a put that was seen.
pub proof fn law_mutations_keep_values_sourced(
    local: LocalView,
    seen: Set<Observed>,
    observed: Observed,
)
    requires
        local.consistent(),
        sourced(local, seen),
    ensures
        sourced(local.applied(observed.mutation, observed.value), seen.insert(observed)),
{
    let more = seen.insert(observed);
    lemma_more_sourced(local, seen, observed);
    match observed.mutation {
        MutationView::Put { key, revision, expires_at_ms, .. } => {
            if local.accepts(key, revision) {
                let entry = EntryView {
                    key,
                    revision,
                    held: match observed.value {
                        Some(value) => Some((value, expires_at_ms)),
                        None => None,
                    },
                };
                lemma_placed_sourced(local, entry, seen, observed);
            }
        },
        MutationView::Delete { key, revision } => {
            if local.accepts(key, revision) {
                let entry = EntryView { key, revision, held: None };
                lemma_placed_sourced(local, entry, seen, observed);
            }
        },
        MutationView::Reset { revision } => {
            let after = local.after_reset(revision);
            local::lemma_survivors(local.entries, revision);
            assert forall|i: int|
                0 <= i < after.entries.len() && (
                #[trigger] after.entries[i]).held is Some implies exists|source: Observed|
             #[trigger]
                more.contains(source) && holds(after.entries[i], source) by {
                assert(local.entries.contains(after.entries[i]));
                let at = choose|at: int|
                    0 <= at < local.entries.len() && local.entries[at] == after.entries[i];
                assert(local.entries[at].held is Some);
            }
        },
    }
}

/// Reading keeps the cache consistent and current, and its values sourced.
pub proof fn law_reads_keep_the_cache_current(
    local: LocalView,
    seen: Set<Observed>,
    key: Seq<u8>,
    now_ms: u64,
)
    requires
        local.consistent(),
        current(local, seen),
        sourced(local, seen),
    ensures
        local.after_read(key, now_ms).consistent(),
        current(local.after_read(key, now_ms), seen),
        sourced(local.after_read(key, now_ms), seen),
{
    let after = local.after_read(key, now_ms);
    local::lemma_place(local.entries, key);
    if let Some(at) = local::place_of(local.entries, key) {
        let last = after.entries.len() - 1;
        let entry = after.entries[last];
        assert(entry.key == local.entries[at].key);
        assert(entry.revision == local.entries[at].revision);
        assert(after =~= local.placed(entry));
        local::lemma_placed_consistent(local, entry);
        lemma_placed_entries(local, entry);
        assert forall|i: int, other: Observed|
            0 <= i < after.entries.len() && #[trigger] seen.contains(other)
                && other.mutation.affects((#[trigger] after.entries[i]).key) implies !other.mutation
            .revision().newer(after.entries[i].revision) by {
            if i < last {
                let from = choose|from: int|
                    0 <= from < local.entries.len() && local.entries[from] == after.entries[i];
                assert(local.entries[from].key == after.entries[i].key);
            } else {
                assert(other.mutation.affects(local.entries[at].key));
            }
        }
        assert forall|other: Observed, absent: Seq<u8>|
            seen.contains(other) && #[trigger] other.mutation.affects(absent) && local::place_of(
                after.entries,
                absent,
            ) is None implies other.mutation.revision().sequence <= after.floor by {
            lemma_absent(after.entries, absent);
            lemma_absent(local.entries, absent);
            assert(after.entries[last].key != absent);
            assert forall|i: int| 0 <= i < local.entries.len() implies (
            #[trigger] local.entries[i]).key != absent by {
                if i != at {
                    let to = if i < at {
                        i
                    } else {
                        i - 1
                    };
                    assert(after.entries[to] == local.entries[i]);
                }
            }
        }
        assert forall|i: int|
            0 <= i < after.entries.len() && (
            #[trigger] after.entries[i]).held is Some implies exists|source: Observed| #[trigger]
            seen.contains(source) && holds(after.entries[i], source) by {
            if i < last {
                let from = choose|from: int|
                    0 <= from < local.entries.len() && local.entries[from] == after.entries[i];
                assert(local.entries[from].held is Some);
            } else {
                assert(after.entries[i] == local.entries[at]);
            }
        }
    }
}

/// An empty cache whose floor covers everything seen is current: recovery from a
/// backing store cannot bring back what was allocated before it.
pub proof fn law_recovery_starts_current(capacity: nat, floor: u64, seen: Set<Observed>)
    requires
        capacity > 0,
        forall|observed: Observed| #[trigger]
            seen.contains(observed) ==> observed.mutation.revision().sequence <= floor,
    ensures
        LocalView::fresh(capacity, floor).consistent(),
        current(LocalView::fresh(capacity, floor), seen),
        sourced(LocalView::fresh(capacity, floor), seen),
{
}

/// A hit is never stale: its value is that of a put of the key that was seen, and
/// nothing seen that affects the key is newer.
pub proof fn law_hits_are_the_newest_seen(
    local: LocalView,
    seen: Set<Observed>,
    key: Seq<u8>,
    now_ms: u64,
)
    requires
        local.consistent(),
        current(local, seen),
        sourced(local, seen),
    ensures
        local.answer(key, now_ms) matches ReadView::Hit { value, revision, expires_at_ms } ==> {
            &&& exists|source: Observed| #[trigger]
                seen.contains(source) && source.value == Some(value) && (
                source.mutation matches MutationView::Put {
                    key: named,
                    revision: at,
                    expires_at_ms: expiry,
                    ..
                } && named == key && at == revision && expiry == expires_at_ms)
            &&& forall|other: Observed| #[trigger]
                seen.contains(other) && other.mutation.affects(key)
                    ==> !other.mutation.revision().newer(revision)
            &&& local::unexpired(expires_at_ms, now_ms)
        },
{
    local::lemma_place(local.entries, key);
    if let ReadView::Hit { value, revision, expires_at_ms } = local.answer(key, now_ms) {
        let at = local::place_of(local.entries, key)->0;
        let source = choose|source: Observed| #[trigger]
            seen.contains(source) && holds(local.entries[at], source);
        assert(seen.contains(source));
        assert forall|other: Observed| #[trigger]
            seen.contains(other) && other.mutation.affects(key) implies !other.mutation.revision()
            .newer(revision) by {
            assert(other.mutation.affects(local.entries[at].key));
        }
    }
}

/// Readers converge: two processes that have seen the same mutations never serve
/// different values of a key, in whatever order they saw them.
pub proof fn law_readers_agree(
    one: LocalView,
    two: LocalView,
    seen: Set<Observed>,
    key: Seq<u8>,
    now_ms: u64,
)
    requires
        one.consistent(),
        two.consistent(),
        current(one, seen),
        current(two, seen),
        sourced(one, seen),
        sourced(two, seen),
        forall|a: Observed, b: Observed| #[trigger]
            seen.contains(a) && #[trigger] seen.contains(b) && a.mutation.revision()
                == b.mutation.revision() && a.value is Some && b.value is Some ==> a == b,
    ensures
        one.answer(key, now_ms) is Hit && two.answer(key, now_ms) is Hit ==> one.answer(key, now_ms)
            == two.answer(key, now_ms),
{
    law_hits_are_the_newest_seen(one, seen, key, now_ms);
    law_hits_are_the_newest_seen(two, seen, key, now_ms);
    if let ReadView::Hit { value: v1, revision: r1, expires_at_ms: e1 } = one.answer(key, now_ms) {
        if let ReadView::Hit { value: v2, revision: r2, expires_at_ms: e2 } = two.answer(
            key,
            now_ms,
        ) {
            let a = choose|source: Observed| #[trigger]
                seen.contains(source) && source.value == Some(v1) && (
                source.mutation matches MutationView::Put {
                    key: named,
                    revision: at,
                    expires_at_ms: expiry,
                    ..
                } && named == key && at == r1 && expiry == e1);
            let b = choose|source: Observed| #[trigger]
                seen.contains(source) && source.value == Some(v2) && (
                source.mutation matches MutationView::Put {
                    key: named,
                    revision: at,
                    expires_at_ms: expiry,
                    ..
                } && named == key && at == r2 && expiry == e2);
            assert(a.mutation.affects(key));
            assert(b.mutation.affects(key));
            protocol::law_revisions_are_totally_ordered(r1, r2, r1);
        }
    }
}

/// A late mutation is ignored: once a newer mutation of a key has been applied, an
/// older put or delete of that key changes nothing.
pub proof fn law_late_mutations_are_ignored(
    local: LocalView,
    newer: Observed,
    late: Observed,
    key: Seq<u8>,
)
    requires
        local.consistent(),
        newer.mutation.affects(key),
        late.mutation.affects(key),
        !(late.mutation is Reset),
        newer.mutation.revision().newer(late.mutation.revision()),
    ensures
        ({
            let after = local.applied(newer.mutation, newer.value);
            &&& after.applied(late.mutation, late.value) == after
            &&& after.outcome(late.mutation, late.value) == OutcomeView::Ignored
        }),
{
    let after = local.applied(newer.mutation, newer.value);
    let seen = Set::<Observed>::empty();
    law_mutations_keep_the_cache_current(local, seen, newer);
    let more = seen.insert(newer);
    assert(more.contains(newer));
    local::lemma_place(after.entries, key);
    if after.coherent {
        match local::place_of(after.entries, key) {
            Some(at) => {
                assert(newer.mutation.affects(after.entries[at].key));
                assert(!newer.mutation.revision().newer(after.entries[at].revision));
                protocol::law_revisions_are_totally_ordered(
                    newer.mutation.revision(),
                    late.mutation.revision(),
                    after.entries[at].revision,
                );
                protocol::law_revisions_are_totally_ordered(
                    late.mutation.revision(),
                    after.entries[at].revision,
                    newer.mutation.revision(),
                );
            },
            None => {},
        }
        assert(!after.accepts(key, late.mutation.revision()));
    }
}

/// Missed mutations disable hits: no read is answered from a distrusted cache, and
/// no mutation makes it trusted again.
pub proof fn law_missed_mutations_disable_hits(
    local: LocalView,
    observed: Observed,
    key: Seq<u8>,
    now_ms: u64,
)
    ensures
        local.distrusted().answer(key, now_ms) == ReadView::ResyncRequired,
        local.distrusted().applied(observed.mutation, observed.value) == local.distrusted(),
        local.distrusted().after_read(key, now_ms) == local.distrusted(),
{
}

/// A put that comes with its bytes is served: a key that was put last reads as the
/// value until it runs out.
pub proof fn law_a_put_is_served(
    local: LocalView,
    observed: Observed,
    key: Seq<u8>,
    now_ms: u64,
)
    requires
        local.consistent(),
        observed.mutation matches MutationView::Put { key: named, .. } && named == key,
        observed.value is Some,
        local.accepts(key, observed.mutation.revision()),
    ensures
        ({
            let after = local.applied(observed.mutation, observed.value);
            let expires_at_ms = observed.mutation->Put_expires_at_ms;
            after.answer(key, now_ms) == if local::unexpired(expires_at_ms, now_ms) {
                ReadView::Hit {
                    value: observed.value->0,
                    revision: observed.mutation.revision(),
                    expires_at_ms,
                }
            } else {
                ReadView::Miss
            }
        }),
{
    local::lemma_place(local.entries, key);
}

/// A delete and a reset make keys miss: after either has been applied as news, the
/// keys it affects are no hit.
pub proof fn law_deleted_keys_miss(
    local: LocalView,
    observed: Observed,
    key: Seq<u8>,
    now_ms: u64,
)
    requires
        local.consistent(),
        local.coherent,
        !(observed.mutation is Put),
        observed.mutation.affects(key),
        match local::place_of(local.entries, key) {
            Some(at) => observed.mutation.revision().newer(local.entries[at].revision),
            None => true,
        },
    ensures
        local.applied(observed.mutation, observed.value).answer(key, now_ms) == ReadView::Miss,
{
    let after = local.applied(observed.mutation, observed.value);
    local::lemma_place(local.entries, key);
    local::lemma_place(after.entries, key);
    if let MutationView::Reset { revision } = observed.mutation {
        local::lemma_survivors(local.entries, revision);
        if let Some(to) = local::place_of(after.entries, key) {
            assert(local.entries.contains(after.entries[to]));
            let from = choose|from: int|
                0 <= from < local.entries.len() && local.entries[from] == after.entries[to];
            lemma_entry_of(local, from, key);
        }
    }
}

} // verus!
