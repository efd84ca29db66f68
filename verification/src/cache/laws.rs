//! What holds of every cache over every fleet.

use vstd::prelude::*;

use super::frame;
use super::frame::MutationView;
use super::{OrbitCache, ReadView, CACHE_RING_CAPACITY, CACHE_RING_KIND};
use crate::error::{Error, Result};
use crate::fleet::laws;
use crate::fleet::model;
use crate::fleet::model::FleetView;
use crate::id;
use crate::id::NetId64;
use crate::ring::FrameView;
use crate::text;

verus! {

/// A mutation that fits is taken: it gets the next identifier, the fleet stays usable,
/// it decides about the keys it speaks of, and while the ring is not full it leaves
/// the answer for every other key as it was.
proof fn lemma_mutation_taken(
    before: FleetView,
    after: FleetView,
    result: Result<NetId64>,
    mutation: MutationView,
    cache: OrbitCache,
    key: Seq<char>,
    now_ms: u64,
)
    requires
        before.consistent(),
        before.has_room(CACHE_RING_KIND, super::cache_spec(), 1),
        frame::frame_fits(mutation.key, mutation.value),
        super::mutation_answers(before, after, result, mutation),
    ensures
        result is Ok,
        after.consistent(),
        after.compatible(CACHE_RING_KIND, super::cache_spec()),
        result->Ok_0.spec_kind() == CACHE_RING_KIND,
        result->Ok_0.spec_node() == before.node,
        ({
            let head = before.home(CACHE_RING_KIND, super::cache_spec()).head();
            &&& result->Ok_0.spec_counter() == head % (id::COUNTER_SPAN as nat)
            &&& match super::decision(
                mutation,
                result->Ok_0.spec_counter(),
                cache.scoped(key),
                now_ms,
            ) {
                Some(read) => cache.answer(after, key, now_ms) == read,
                None => head < CACHE_RING_CAPACITY ==> cache.answer(after, key, now_ms)
                    == cache.answer(before, key, now_ms),
            }
        }),
{
    let kind = CACHE_RING_KIND;
    let spec = super::cache_spec();
    let ring = before.home(kind, spec);
    let payload = frame::encoded(mutation);
    model::lemma_family_consistent(before, kind, spec);
    frame::law_cache_frames_round_trip(mutation);
    laws::law_publishing_keeps_the_fleet_consistent(
        before,
        kind,
        spec,
        mutation.op,
        mutation.expires_at_ms,
        payload,
    );
    id::lemma_minted_fields(kind, before.node, ring.head());
    super::law_published_mutations_are_retained(
        before,
        mutation.op,
        mutation.expires_at_ms,
        payload,
    );
    let window = if ring.head() < CACHE_RING_CAPACITY {
        ring.retained()
    } else {
        ring.retained().skip(1)
    };
    let written = before.next_frame(kind, spec, mutation.op, mutation.expires_at_ms, payload);
    super::law_the_newest_mutation_wins(window, written, mutation, cache.scoped(key), now_ms);
}

/// A put settles its key and no other: it returns the next identifier of the cache
/// ring; from then on every cache that names the same key reads the value, with the
/// put's counter as its epoch, until the term ends, and a miss after that. While the
/// ring is not full, every other key reads as before.
pub proof fn law_a_put_settles_its_key_alone(
    before: FleetView,
    after: FleetView,
    result: Result<NetId64>,
    cache: OrbitCache,
    key: Seq<char>,
    value: Seq<u8>,
    ttl_ms: Option<u128>,
    put_at: u64,
    reader: OrbitCache,
    read_key: Seq<char>,
    now_ms: u64,
)
    requires
        before.consistent(),
        before.has_room(CACHE_RING_KIND, super::cache_spec(), 1),
        frame::frame_fits(cache.scoped(key), value),
        super::mutation_answers(
            before,
            after,
            result,
            cache.put_mutation(key, value, ttl_ms, put_at),
        ),
    ensures
        result is Ok,
        result->Ok_0.spec_kind() == CACHE_RING_KIND,
        ({
            let head = before.home(CACHE_RING_KIND, super::cache_spec()).head();
            let epoch = result->Ok_0.spec_counter();
            let expires_at_ms = super::expiry(ttl_ms, put_at);
            let same = reader.spec_prefix() + read_key == cache.spec_prefix() + key;
            &&& head < id::COUNTER_SPAN ==> epoch == head
            &&& ttl_ms is Some ==> expires_at_ms > 0
            &&& same ==> reader.answer(after, read_key, now_ms) == (if ttl_ms is None {
                ReadView::Hit { value, epoch, expires_at_ms: None }
            } else if now_ms < expires_at_ms {
                ReadView::Hit { value, epoch, expires_at_ms: Some(expires_at_ms) }
            } else {
                ReadView::Miss { epoch: Some(epoch) }
            })
            &&& !same && head < CACHE_RING_CAPACITY ==> reader.answer(after, read_key, now_ms)
                == reader.answer(before, read_key, now_ms)
        }),
{
    let head = before.home(CACHE_RING_KIND, super::cache_spec()).head();
    if head < id::COUNTER_SPAN {
        vstd::arithmetic::div_mod::lemma_small_mod(head, id::COUNTER_SPAN as nat);
    }
    lemma_mutation_taken(
        before,
        after,
        result,
        cache.put_mutation(key, value, ttl_ms, put_at),
        reader,
        read_key,
        now_ms,
    );
    if reader.spec_prefix() + read_key != cache.spec_prefix() + key {
        if reader.scoped(read_key) == cache.scoped(key) {
            text::lemma_encode_injective(
                reader.spec_prefix() + read_key,
                cache.spec_prefix() + key,
            );
        }
    }
}

/// A delete settles its key and no other: it is taken whether or not the key was
/// there; from then on every cache that names the same key misses, with the delete's
/// counter as its epoch. While the ring is not full, every other key reads as before.
/// The fleet takes a later put, which is then read again.
pub proof fn law_a_delete_settles_its_key_alone(
    before: FleetView,
    after: FleetView,
    result: Result<NetId64>,
    cache: OrbitCache,
    key: Seq<char>,
    reader: OrbitCache,
    read_key: Seq<char>,
    now_ms: u64,
    again: FleetView,
    put_result: Result<NetId64>,
    value: Seq<u8>,
)
    requires
        before.consistent(),
        before.has_room(CACHE_RING_KIND, super::cache_spec(), 1),
        frame::frame_fits(cache.scoped(key), seq![]),
        super::mutation_answers(before, after, result, cache.delete_mutation(key)),
    ensures
        result is Ok,
        result->Ok_0.spec_kind() == CACHE_RING_KIND,
        ({
            let head = before.home(CACHE_RING_KIND, super::cache_spec()).head();
            let epoch = result->Ok_0.spec_counter();
            let same = reader.spec_prefix() + read_key == cache.spec_prefix() + key;
            &&& head < id::COUNTER_SPAN ==> epoch == head
            &&& same ==> reader.answer(after, read_key, now_ms) == (ReadView::Miss {
                epoch: Some(epoch),
            })
            &&& !same && head < CACHE_RING_CAPACITY ==> reader.answer(after, read_key, now_ms)
                == reader.answer(before, read_key, now_ms)
        }),
        after.has_room(CACHE_RING_KIND, super::cache_spec(), 1) && frame::frame_fits(
            cache.scoped(key),
            value,
        ) && super::mutation_answers(
            after,
            again,
            put_result,
            cache.put_mutation(key, value, None, now_ms),
        ) ==> put_result is Ok && cache.answer(again, key, now_ms) == (ReadView::Hit {
            value,
            epoch: put_result->Ok_0.spec_counter(),
            expires_at_ms: None,
        }),
{
    let head = before.home(CACHE_RING_KIND, super::cache_spec()).head();
    if head < id::COUNTER_SPAN {
        vstd::arithmetic::div_mod::lemma_small_mod(head, id::COUNTER_SPAN as nat);
    }
    lemma_mutation_taken(
        before,
        after,
        result,
        cache.delete_mutation(key),
        reader,
        read_key,
        now_ms,
    );
    if reader.spec_prefix() + read_key != cache.spec_prefix() + key {
        if reader.scoped(read_key) == cache.scoped(key) {
            text::lemma_encode_injective(
                reader.spec_prefix() + read_key,
                cache.spec_prefix() + key,
            );
        }
    }
    if after.has_room(CACHE_RING_KIND, super::cache_spec(), 1) && frame::frame_fits(
        cache.scoped(key),
        value,
    ) && super::mutation_answers(
        after,
        again,
        put_result,
        cache.put_mutation(key, value, None, now_ms),
    ) {
        law_a_put_settles_its_key_alone(
            after,
            again,
            put_result,
            cache,
            key,
            value,
            None,
            now_ms,
            cache,
            key,
            now_ms,
        );
    }
}

/// A reset settles its prefix and nothing else: from then on every cache misses on
/// each key whose full name begins with the prefix, with the reset's counter as its
/// epoch. While the ring is not full, every other key reads as before. A reset without
/// a prefix makes every key a miss.
pub proof fn law_a_reset_settles_its_prefix_alone(
    before: FleetView,
    after: FleetView,
    result: Result<NetId64>,
    cache: OrbitCache,
    reader: OrbitCache,
    read_key: Seq<char>,
    now_ms: u64,
)
    requires
        before.consistent(),
        before.has_room(CACHE_RING_KIND, super::cache_spec(), 1),
        frame::frame_fits(vstd::utf8::encode_utf8(cache.spec_prefix()), seq![]),
        super::mutation_answers(before, after, result, cache.reset_mutation()),
    ensures
        result is Ok,
        result->Ok_0.spec_kind() == CACHE_RING_KIND,
        ({
            let head = before.home(CACHE_RING_KIND, super::cache_spec()).head();
            let epoch = result->Ok_0.spec_counter();
            let under = cache.spec_prefix().is_prefix_of(reader.spec_prefix() + read_key);
            &&& head < id::COUNTER_SPAN ==> epoch == head
            &&& cache.spec_prefix().len() == 0 ==> under
            &&& under ==> reader.answer(after, read_key, now_ms) == (ReadView::Miss {
                epoch: Some(epoch),
            })
            &&& !under && head < CACHE_RING_CAPACITY ==> reader.answer(after, read_key, now_ms)
                == reader.answer(before, read_key, now_ms)
        }),
{
    let head = before.home(CACHE_RING_KIND, super::cache_spec()).head();
    let name = reader.spec_prefix() + read_key;
    if head < id::COUNTER_SPAN {
        vstd::arithmetic::div_mod::lemma_small_mod(head, id::COUNTER_SPAN as nat);
    }
    if cache.spec_prefix().len() == 0 {
        assert(cache.spec_prefix() =~= name.subrange(0, 0));
    }
    text::lemma_encode_prefix(cache.spec_prefix(), name);
    lemma_mutation_taken(before, after, result, cache.reset_mutation(), reader, read_key, now_ms);
    let bytes = vstd::utf8::encode_utf8(name);
    if vstd::utf8::encode_utf8(cache.spec_prefix()) == bytes {
        assert(bytes =~= bytes.subrange(0, bytes.len() as int));
    }
}

/// A prefix is plain concatenation: a prefixed cache reads a key as a cache without a
/// prefix reads the prefix and the key put together, and caches whose full names for a
/// key agree read alike.
pub proof fn law_a_prefix_is_concatenation(
    prefixed: OrbitCache,
    plain: OrbitCache,
    fleet: FleetView,
    key: Seq<char>,
    now_ms: u64,
)
    requires
        plain.spec_prefix().len() == 0,
    ensures
        prefixed.answer(fleet, key, now_ms) == plain.answer(
            fleet,
            prefixed.spec_prefix() + key,
            now_ms,
        ),
        prefixed.scoped(key) == vstd::utf8::encode_utf8(prefixed.spec_prefix())
            + vstd::utf8::encode_utf8(key),
{
    assert(plain.spec_prefix() + (prefixed.spec_prefix() + key) =~= prefixed.spec_prefix() + key);
    text::lemma_encode_concat(prefixed.spec_prefix(), key);
}

/// A put lives for its term: of a put that fits, every cache that names the same key
/// reads the value in every millisecond before the term is over and a miss from that
/// moment on. The term is counted in milliseconds from the put; a term of nothing lasts
/// one millisecond, one that reaches beyond the end of time ends there, and a put
/// without a term is read for good.
pub proof fn law_a_put_lives_for_its_term(
    before: FleetView,
    after: FleetView,
    result: Result<NetId64>,
    cache: OrbitCache,
    key: Seq<char>,
    value: Seq<u8>,
    ttl_ms: Option<u128>,
    put_at: u64,
    reader: OrbitCache,
    read_key: Seq<char>,
    now_ms: u64,
)
    requires
        before.consistent(),
        before.has_room(CACHE_RING_KIND, super::cache_spec(), 1),
        13 + vstd::utf8::encode_utf8(cache.spec_prefix() + key).len() + value.len() <= 256,
        super::mutation_answers(
            before,
            after,
            result,
            cache.put_mutation(key, value, ttl_ms, put_at),
        ),
        reader.spec_prefix() + read_key == cache.spec_prefix() + key,
    ensures
        result is Ok,
        ttl_ms is None ==> reader.answer(after, read_key, now_ms) == (ReadView::Hit {
            value,
            epoch: result->Ok_0.spec_counter(),
            expires_at_ms: None,
        }),
        ttl_ms matches Some(ttl_ms) ==> {
            let end: int = if ttl_ms == 0 {
                put_at + 1
            } else {
                put_at + ttl_ms
            };
            let expires_at_ms = if end <= u64::MAX {
                end as u64
            } else {
                u64::MAX
            };
            reader.answer(after, read_key, now_ms) == (if now_ms < expires_at_ms {
                ReadView::Hit {
                    value,
                    epoch: result->Ok_0.spec_counter(),
                    expires_at_ms: Some(expires_at_ms),
                }
            } else {
                ReadView::Miss { epoch: Some(result->Ok_0.spec_counter()) }
            })
        },
{
    law_a_put_settles_its_key_alone(
        before,
        after,
        result,
        cache,
        key,
        value,
        ttl_ms,
        put_at,
        reader,
        read_key,
        now_ms,
    );
}

/// Mutations that are too large are refused as such: a put whose thirteen header bytes,
/// full key and value have more than 256 bytes together answers with their lengths and
/// changes nothing, and every other put is taken. The same goes for deletes and resets.
pub proof fn law_cache_mutations_are_bounded(
    before: FleetView,
    after: FleetView,
    result: Result<NetId64>,
    mutation: MutationView,
)
    requires
        super::mutation_answers(before, after, result, mutation),
    ensures
        13 + mutation.key.len() + mutation.value.len() > 256 ==> {
            &&& after == before
            &&& result == Err::<NetId64, Error>(
                Error::CacheFrameTooLarge {
                    key_len: mutation.key.len() as usize,
                    value_len: mutation.value.len() as usize,
                    max_payload: 256,
                },
            )
        },
        13 + mutation.key.len() + mutation.value.len() <= 256 ==> result is Ok,
{
}

/// Whether a slot says nothing about a key: it is empty, it holds no mutation, or its
/// mutation is of another key and no reset of a prefix of this one.
pub open spec fn silent_on(slot: Option<FrameView>, key: Seq<u8>) -> bool {
    slot matches Some(frame) ==> (frame::decoded(frame.payload) matches Some(mutation) ==> {
        &&& mutation.key != key
        &&& mutation.op == 3 ==> !mutation.key.is_prefix_of(key)
    })
}

/// The newest word on a key decides, whatever lies before it: a put that has not run out
/// is a hit with its value, its counter and its expiry; a put that has, a delete and a
/// reset are misses with their counter. Where no slot says anything about the key, it is
/// a miss with no counter.
pub proof fn law_the_newest_word_on_a_key_decides(
    window: Seq<Option<FrameView>>,
    key: Seq<u8>,
    now: u64,
    at: int,
    frame: FrameView,
    mutation: MutationView,
)
    ensures
        (forall|i: int| 0 <= i < window.len() ==> silent_on(#[trigger] window[i], key))
            ==> super::lookup(window, key, now) == (ReadView::Miss { epoch: None }),
        0 <= at < window.len() && window[at] == Some(frame) && frame::decoded(frame.payload)
            == Some(mutation) && !silent_on(window[at], key) && (forall|i: int|
            at < i < window.len() ==> silent_on(#[trigger] window[i], key)) ==> super::lookup(
            window,
            key,
            now,
        ) == (if mutation.op == 1 && (mutation.expires_at_ms == 0 || now
            < mutation.expires_at_ms) {
            ReadView::Hit {
                value: mutation.value,
                epoch: frame.id.spec_counter(),
                expires_at_ms: if mutation.expires_at_ms == 0 {
                    None
                } else {
                    Some(mutation.expires_at_ms)
                },
            }
        } else {
            ReadView::Miss { epoch: Some(frame.id.spec_counter()) }
        }),
    decreases window.len(),
{
    if window.len() > 0 {
        let front = window.drop_last();
        let last = window.len() - 1;
        assert(window.last() == window[last]);
        assert(forall|i: int| 0 <= i < front.len() ==> front[i] == #[trigger] window[i]);
        law_the_newest_word_on_a_key_decides(front, key, now, at, frame, mutation);
        if forall|i: int| 0 <= i < window.len() ==> silent_on(#[trigger] window[i], key) {
            assert(silent_on(window[last], key));
            assert(forall|i: int| 0 <= i < front.len() ==> silent_on(#[trigger] front[i], key));
        }
        if 0 <= at < window.len() && window[at] == Some(frame) && frame::decoded(frame.payload)
            == Some(mutation) && !silent_on(window[at], key) && (forall|i: int|
            at < i < window.len() ==> silent_on(#[trigger] window[i], key)) {
            if at < last {
                assert(silent_on(window[last], key));
                assert(front[at] == window[at]);
                assert(forall|i: int|
                    at < i < front.len() ==> silent_on(#[trigger] front[i], key));
            }
        }
    }
}

/// A read looks at the last 1024 mutations of the fleet and no further: of those, the
/// newest one that speaks of the key decides.
pub proof fn law_cache_reads_follow_the_log(
    fleet: FleetView,
    cache: OrbitCache,
    key: Seq<char>,
    now_ms: u64,
    at: int,
    mutation: MutationView,
)
    requires
        fleet.consistent(),
        fleet.compatible(CACHE_RING_KIND, super::cache_spec()),
    ensures
        ({
            let log = fleet.home(CACHE_RING_KIND, super::cache_spec()).log;
            let name = vstd::utf8::encode_utf8(cache.spec_prefix() + key);
            &&& (forall|i: int|
                0 <= i < log.len() && log.len() - 1024 <= i ==> silent_on(
                    Some(#[trigger] log[i]),
                    name,
                )) ==> cache.answer(fleet, key, now_ms) == (ReadView::Miss { epoch: None })
            &&& 0 <= at < log.len() && log.len() - 1024 <= at && frame::decoded(log[at].payload)
                == Some(mutation) && !silent_on(Some(log[at]), name) && (forall|i: int|
                at < i < log.len() ==> silent_on(Some(#[trigger] log[i]), name))
                ==> cache.answer(fleet, key, now_ms) == (if mutation.op == 1 && (
            mutation.expires_at_ms == 0 || now_ms < mutation.expires_at_ms) {
                ReadView::Hit {
                    value: mutation.value,
                    epoch: log[at].id.spec_counter(),
                    expires_at_ms: if mutation.expires_at_ms == 0 {
                        None
                    } else {
                        Some(mutation.expires_at_ms)
                    },
                }
            } else {
                ReadView::Miss { epoch: Some(log[at].id.spec_counter()) }
            })
        }),
{
    let ring = fleet.home(CACHE_RING_KIND, super::cache_spec());
    let log = ring.log;
    let window = ring.retained();
    let floor = ring.floor() as int;
    let name = cache.scoped(key);
    model::lemma_family_consistent(fleet, CACHE_RING_KIND, super::cache_spec());
    assert(floor == if log.len() <= 1024 {
        0
    } else {
        log.len() - 1024
    });
    assert(window.len() == log.len() - floor);
    assert(forall|i: int| 0 <= i < window.len() ==> #[trigger] window[i] == Some(log[floor + i]));
    law_the_newest_word_on_a_key_decides(window, name, now_ms, at - floor, log[at], mutation);
}

} // verus!
