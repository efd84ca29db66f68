//! What holds of every contest table and every sequence of operations on it.

use vstd::prelude::*;

use super::model;
use super::model::{ClaimRequest, ClaimView, LeaseView, SlotView, TableView};
use super::guard;
use super::guard::{Claim, ContestOwner, ContestSubject, Guard, HolderView};
use super::state;
use crate::clock;
use crate::error::{Error, Result};
use crate::fleet::model::FleetView;
use crate::id;
use crate::id::NetId64;

verus! {

/// No operation breaks the table: a subject never has two leases, and a recorded
/// lease is always found.
pub proof fn law_operations_keep_the_table_consistent(
    table: TableView,
    request: ClaimRequest,
    claim_id: NetId64,
    expires_at_ms: u64,
    now: u64,
)
    requires
        table.consistent(),
        request.subject.len() + request.owner.len() <= state::CONTEST_STATE_PAYLOAD_MAX,
    ensures
        TableView::fresh().consistent(),
        table.after_claim(request).consistent(),
        table.after_renew(request.kind, request.subject, claim_id, expires_at_ms, now).consistent(),
        table.after_release(request.kind, request.subject, claim_id).consistent(),
{
    model::lemma_claim_consistent(table, request);
    model::lemma_renew_consistent(
        table,
        request.kind,
        request.subject,
        claim_id,
        expires_at_ms,
        now,
    );
    model::lemma_release_consistent(table, request.kind, request.subject, claim_id);
}

/// Mutual exclusion: a claim yields exactly where a live lease holds the
/// subject, and it yields to that lease. An expired lease blocks nobody.
pub proof fn law_claims_yield_to_the_holder(table: TableView, request: ClaimRequest, lease: LeaseView)
    requires
        table.consistent(),
    ensures
        table.claim_outcome(request) == Ok::<ClaimView, Error>(ClaimView::Occupied(lease)) <==> table.holder_of(
            request.kind,
            request.subject,
            request.claimed_at_ms,
        ) == Some(lease),
        table.taken(request.kind, request.subject, request.claimed_at_ms) <==> table.holder_of(
            request.kind,
            request.subject,
            request.claimed_at_ms,
        ) is Some,
{
    let now = request.claimed_at_ms;
    let kind = request.kind;
    let subject = request.subject;
    let home = table.home(kind, subject);
    let end = table.claim_end(kind, subject, now);
    let pred = |slot: SlotView| slot.ends_claim(kind, subject, now);
    model::lemma_first_offset(table.slots, home, pred, 0);
    if end < table.capacity() {
        let at = model::probe(home, end, table.capacity());
        assert(pred(table.slots[at]));
        if table.slots[at] is Occupied {
            assert(table.holds_at(at, kind, subject));
            model::lemma_lease_at(table, at, kind, subject);
        }
    }
    model::lemma_find(table, kind, subject);
    if let Some(held) = table.holder_of(kind, subject, now) {
        let i = table.find(kind, subject)->Some_0;
        let d = model::distance(home, i, table.capacity());
        assert(model::probe(home, d, table.capacity()) == i);
        assert(table.reachable(i));
        if end > d {
            assert(!pred(table.slots[model::probe(home, d, table.capacity())]));
        }
        if end < d {
            assert(!(table.slots[model::probe(home, end, table.capacity())] is Empty));
        }
    }
}

/// A granted claim holds the subject from then on, until it expires.
pub proof fn law_a_granted_claim_holds_the_subject(
    table: TableView,
    request: ClaimRequest,
    lease: LeaseView,
    later: u64,
)
    requires
        table.consistent(),
        request.subject.len() + request.owner.len() <= state::CONTEST_STATE_PAYLOAD_MAX,
        table.claim_outcome(request) == Ok::<ClaimView, Error>(ClaimView::Claimed(lease)),
    ensures
        lease == table.requested(request),
        lease.live(request.claimed_at_ms),
        table.after_claim(request).lease_of(request.kind, request.subject) == Some(lease),
        lease.live(later) ==> table.after_claim(request).holder_of(
            request.kind,
            request.subject,
            later,
        ) == Some(lease),
{
    let now = request.claimed_at_ms;
    let home = table.home(request.kind, request.subject);
    let free = table.first_free(request.kind, request.subject, now);
    let at = model::probe(home, free, table.capacity());
    let after = table.after_claim(request);
    model::lemma_first_offset(table.slots, home, |slot: SlotView| slot.free(now), 0);
    model::lemma_claim_consistent(table, request);
    assert(after.slots[at] == SlotView::Occupied(lease));
    assert(after.holds_at(at, request.kind, request.subject));
    model::lemma_lease_at(after, at, request.kind, request.subject);
}

/// Of two claimants at most one wins: while a granted lease is live, every further
/// claim of its subject, by whichever member, yields to that lease.
pub proof fn law_at_most_one_claimant_wins(
    table: TableView,
    first: ClaimRequest,
    lease: LeaseView,
    second: ClaimRequest,
)
    requires
        table.consistent(),
        first.subject.len() + first.owner.len() <= state::CONTEST_STATE_PAYLOAD_MAX,
        table.claim_outcome(first) == Ok::<ClaimView, Error>(ClaimView::Claimed(lease)),
        second.kind == first.kind,
        second.subject == first.subject,
        lease.live(second.claimed_at_ms),
    ensures
        table.after_claim(first).claim_outcome(second) == Ok::<ClaimView, Error>(
            ClaimView::Occupied(lease),
        ),
{
    law_a_granted_claim_holds_the_subject(table, first, lease, second.claimed_at_ms);
    model::lemma_claim_consistent(table, first);
    law_claims_yield_to_the_holder(table.after_claim(first), second, lease);
}

/// Different subjects do not compete: whatever a claim does, every other subject
/// that was held at that moment stays held by the same lease, and no lease
/// appears for a subject that was not claimed.
pub proof fn law_claims_spare_other_subjects(
    table: TableView,
    request: ClaimRequest,
    kind: u8,
    subject: Seq<u8>,
)
    requires
        table.consistent(),
        request.subject.len() + request.owner.len() <= state::CONTEST_STATE_PAYLOAD_MAX,
        kind != request.kind || subject != request.subject,
    ensures
        table.holder_of(kind, subject, request.claimed_at_ms) is Some ==> table.after_claim(
            request,
        ).lease_of(kind, subject) == table.lease_of(kind, subject),
        table.after_claim(request).lease_of(kind, subject) is Some ==> table.after_claim(
            request,
        ).lease_of(kind, subject) == table.lease_of(kind, subject),
{
    let now = request.claimed_at_ms;
    let home = table.home(request.kind, request.subject);
    let free = table.first_free(request.kind, request.subject, now);
    let after = table.after_claim(request);
    let pred = |slot: SlotView| slot.free(now);
    model::lemma_first_offset(table.slots, home, pred, 0);
    model::lemma_claim_consistent(table, request);
    model::lemma_find(table, kind, subject);
    model::lemma_find(after, kind, subject);
    if table.holder_of(kind, subject, now) is Some {
        let i = table.find(kind, subject)->Some_0;
        assert(!table.slots[i].free(now));
        if free < table.capacity() {
            assert(pred(table.slots[model::probe(home, free, table.capacity())]));
        }
        assert(after.slots[i] == table.slots[i]);
        assert(after.holds_at(i, kind, subject));
        model::lemma_lease_at(after, i, kind, subject);
    }
    if after.lease_of(kind, subject) is Some {
        let i = after.find(kind, subject)->Some_0;
        assert(after.slots[i] == table.slots[i]);
        assert(table.holds_at(i, kind, subject));
        model::lemma_lease_at(table, i, kind, subject);
    }
}

/// A full table refuses instead of evicting: a well-formed claim on an unheld
/// subject is refused as full exactly where no slot is free, and then all of them
/// stay.
pub proof fn law_a_full_table_evicts_nobody(table: TableView, request: ClaimRequest)
    requires
        table.consistent(),
        table.next_claim < id::COUNTER_SPAN,
        request.expires_at_ms > request.claimed_at_ms,
        table.holder_of(request.kind, request.subject, request.claimed_at_ms) is None,
    ensures
        table.claim_outcome(request) == Err::<ClaimView, Error>(
            Error::ContestStateFull { capacity: state::CONTEST_STATE_CAPACITY },
        ) <==> forall|i: int|
            0 <= i < table.capacity() ==> !(#[trigger] table.slots[i]).free(
                request.claimed_at_ms,
            ),
        table.claim_outcome(request) is Err ==> table.after_claim(request).slots == table.slots,
{
    let now = request.claimed_at_ms;
    let home = table.home(request.kind, request.subject);
    let free = table.first_free(request.kind, request.subject, now);
    let pred = |slot: SlotView| slot.free(now);
    let lease = table.requested(request);
    law_claims_yield_to_the_holder(table, request, lease);
    model::lemma_first_offset(table.slots, home, pred, 0);
    if free >= table.capacity() {
        assert forall|i: int| 0 <= i < table.capacity() implies !(#[trigger] table.slots[i]).free(
            now,
        ) by {
            let d = model::distance(home, i, table.capacity());
            assert(model::probe(home, d, table.capacity()) == i);
            assert(!pred(table.slots[model::probe(home, d, table.capacity())]));
        }
        assert(table.after_claim(request).slots =~= table.slots);
    } else {
        let at = model::probe(home, free, table.capacity());
        assert(pred(table.slots[at]));
        assert(table.slots[at].free(now));
    }
}

/// Fencing tokens order tenures: a granted claim carries a counter above that of
/// every recorded lease and of every claim granted before, and no operation but a
/// reset takes the counter back.
pub proof fn law_fence_tokens_increase(
    table: TableView,
    request: ClaimRequest,
    lease: LeaseView,
    claim_id: NetId64,
    expires_at_ms: u64,
    now: u64,
)
    requires
        table.consistent(),
    ensures
        table.claim_outcome(request) == Ok::<ClaimView, Error>(ClaimView::Claimed(lease)) ==> {
            &&& lease.claim_id.spec_counter() == table.next_claim
            &&& lease.claim_id.spec_counter() < table.after_claim(request).next_claim
            &&& forall|i: int|
                0 <= i < table.capacity() && table.slots[i] is Occupied ==> (
                #[trigger] table.slots[i]->Occupied_0).claim_id.spec_counter()
                    < lease.claim_id.spec_counter()
        },
        table.next_claim <= table.after_claim(request).next_claim,
        table.next_claim == table.after_renew(
            request.kind,
            request.subject,
            claim_id,
            expires_at_ms,
            now,
        ).next_claim,
        table.next_claim == table.after_release(request.kind, request.subject, claim_id).next_claim,
{
    id::lemma_minted_fields(state::CONTEST_STATE_KIND, request.node, table.next_claim as nat);
    if table.next_claim < id::COUNTER_SPAN {
        vstd::arithmetic::div_mod::lemma_small_mod(
            table.next_claim as nat,
            id::COUNTER_SPAN as nat,
        );
    }
}

/// A renewal keeps the tenure: same identifier, same owner, same start, and an
/// expiry that is never earlier than before.
pub proof fn law_renewal_keeps_the_tenure(
    table: TableView,
    kind: u8,
    subject: Seq<u8>,
    claim_id: NetId64,
    expires_at_ms: u64,
    now: u64,
    lease: LeaseView,
)
    requires
        table.consistent(),
        table.renewed(kind, subject, claim_id, expires_at_ms, now) == Some(lease),
    ensures
        table.lease_of(kind, subject) matches Some(held) && held.claim_id == claim_id
            && lease.claim_id == claim_id && lease.owner == held.owner && lease.claimed_at_ms
            == held.claimed_at_ms && lease.expires_at_ms >= held.expires_at_ms
            && lease.expires_at_ms >= expires_at_ms,
        table.after_renew(kind, subject, claim_id, expires_at_ms, now).holder_of(
            kind,
            subject,
            now,
        ) == Some(lease),
{
    model::lemma_find(table, kind, subject);
    let i = table.find(kind, subject)->Some_0;
    let after = table.after_renew(kind, subject, claim_id, expires_at_ms, now);
    model::lemma_renew_consistent(table, kind, subject, claim_id, expires_at_ms, now);
    assert(after.holds_at(i, kind, subject));
    model::lemma_lease_at(after, i, kind, subject);
}

/// A superseded guard is powerless: where the recorded lease is another tenure's,
/// neither a renewal nor a release under the old identifier changes anything, and
/// the renewal is refused. An expired tenure cannot be renewed either.
pub proof fn law_stale_guards_are_powerless(
    table: TableView,
    kind: u8,
    subject: Seq<u8>,
    claim_id: NetId64,
    expires_at_ms: u64,
    now: u64,
)
    ensures
        table.lease_of(kind, subject) matches Some(held) && held.claim_id != claim_id ==> {
            &&& table.renewed(kind, subject, claim_id, expires_at_ms, now) is None
            &&& table.after_renew(kind, subject, claim_id, expires_at_ms, now) == table
            &&& table.after_release(kind, subject, claim_id) == table
        },
        table.holder_of(kind, subject, now) is None ==> {
            &&& table.renewed(kind, subject, claim_id, expires_at_ms, now) is None
            &&& table.after_renew(kind, subject, claim_id, expires_at_ms, now) == table
        },
{
}

/// Releasing a tenure frees its subject for the next claim and leaves every other
/// subject alone.
pub proof fn law_release_frees_the_subject(
    table: TableView,
    kind: u8,
    subject: Seq<u8>,
    lease: LeaseView,
    other_kind: u8,
    other_subject: Seq<u8>,
)
    requires
        table.consistent(),
        table.lease_of(kind, subject) == Some(lease),
    ensures
        table.after_release(kind, subject, lease.claim_id).lease_of(kind, subject) is None,
        other_kind != kind || other_subject != subject ==> table.after_release(
            kind,
            subject,
            lease.claim_id,
        ).lease_of(other_kind, other_subject) == table.lease_of(other_kind, other_subject),
{
    let after = table.after_release(kind, subject, lease.claim_id);
    model::lemma_release_consistent(table, kind, subject, lease.claim_id);
    model::lemma_find(table, kind, subject);
    model::lemma_find(after, kind, subject);
    if let Some(i) = after.find(kind, subject) {
        assert(table.holds_at(i, kind, subject));
        model::lemma_lease_at(table, i, kind, subject);
    }
    if other_kind != kind || other_subject != subject {
        model::lemma_find(table, other_kind, other_subject);
        model::lemma_find(after, other_kind, other_subject);
        if let Some(i) = table.find(other_kind, other_subject) {
            assert(after.holds_at(i, other_kind, other_subject));
            model::lemma_lease_at(after, i, other_kind, other_subject);
        } else if let Some(i) = after.find(other_kind, other_subject) {
            assert(table.holds_at(i, other_kind, other_subject));
            model::lemma_lease_at(table, i, other_kind, other_subject);
        }
    }
}

/// A guard shows the claim it came from: the subject, the owner and the times as
/// they were given, and the claim counter of that moment as its fencing token.
pub proof fn law_a_guard_shows_its_claim(
    before: FleetView,
    after: FleetView,
    guard: Guard,
    subject: ContestSubject,
    owner: ContestOwner,
    ttl_ms: u128,
    now_ms: u64,
)
    requires
        before.consistent(),
        guard::claim_answers(
            before,
            after,
            Ok(Claim::Claimed(guard)),
            guard::claim_request(before.node, &subject, &owner, ttl_ms, now_ms),
        ),
    ensures
        guard.spec_holder().kind == subject.spec_kind(),
        guard.spec_holder().subject == subject.spec_label(),
        guard.spec_holder().owner == owner.spec_text(),
        guard.spec_holder().claimed_at_ms == now_ms,
        guard.spec_holder().expires_at_ms == clock::later(now_ms, ttl_ms),
        guard.spec_holder().claim_id.spec_counter() == before.contest.next_claim,
        guard.spec_holder().claim_id.spec_node() == before.node,
        after.contest.lease_of(
            subject.spec_kind(),
            vstd::utf8::encode_utf8(subject.spec_label()),
        ) matches Some(lease) && lease.claim_id == guard.spec_holder().claim_id,
{
    let request = guard::claim_request(before.node, &subject, &owner, ttl_ms, now_ms);
    let lease = before.contest.requested(request);
    vstd::utf8::encode_utf8_valid_utf8(subject.spec_label());
    vstd::utf8::encode_utf8_decode_utf8(subject.spec_label());
    vstd::utf8::encode_utf8_valid_utf8(owner.spec_text());
    vstd::utf8::encode_utf8_decode_utf8(owner.spec_text());
    id::lemma_minted_fields(
        state::CONTEST_STATE_KIND,
        request.node,
        before.contest.next_claim as nat,
    );
    law_fence_tokens_increase(before.contest, request, lease, lease.claim_id, 0, 0);
    law_a_granted_claim_holds_the_subject(before.contest, request, lease, now_ms);
}

/// Releasing a guard frees exactly the subject it was claimed for, as long as no
/// other tenure has taken its place.
pub proof fn law_releasing_a_guard_frees_its_subject(
    before: FleetView,
    after: FleetView,
    holder: HolderView,
    result: Result<NetId64>,
)
    requires
        before.consistent(),
        before.contest.lease_of(holder.kind, vstd::utf8::encode_utf8(holder.subject)) matches Some(
            lease,
        ) && lease.claim_id == holder.claim_id,
        guard::release_answers(before, after, result, holder),
    ensures
        result == Ok::<NetId64, Error>(holder.claim_id),
        after.contest.lease_of(holder.kind, vstd::utf8::encode_utf8(holder.subject)) is None,
{
    let subject = vstd::utf8::encode_utf8(holder.subject);
    model::lemma_find(before.contest, holder.kind, subject);
    let i = before.contest.find(holder.kind, subject)->Some_0;
    let lease = before.contest.slots[i]->Occupied_0;
    assert(lease.subject.len() + lease.owner.len() <= state::CONTEST_STATE_PAYLOAD_MAX);
    law_release_frees_the_subject(before.contest, holder.kind, subject, lease, 0, seq![]);
}

/// A superseded guard can neither renew nor release its successor: the fleet
/// stays as it is, and the renewal is refused.
pub proof fn law_a_superseded_guard_changes_nothing(
    before: FleetView,
    released: FleetView,
    renewed: FleetView,
    holder: HolderView,
    shown: HolderView,
    release_result: Result<NetId64>,
    renew_result: Result<NetId64>,
    ttl_ms: u128,
    now_ms: u64,
)
    requires
        before.consistent(),
        before.contest.lease_of(holder.kind, vstd::utf8::encode_utf8(holder.subject)) matches Some(
            lease,
        ) && lease.claim_id != holder.claim_id,
        guard::release_answers(before, released, release_result, holder),
        guard::renew_answers(before, renewed, renew_result, holder, shown, ttl_ms, now_ms),
    ensures
        released == before,
        renewed == before,
        shown == holder,
        renew_result == Err::<NetId64, Error>(
            Error::ContestLeaseLost { claim_id: holder.claim_id },
        ),
{
    let subject = vstd::utf8::encode_utf8(holder.subject);
    model::lemma_find(before.contest, holder.kind, subject);
    let i = before.contest.find(holder.kind, subject)->Some_0;
    let lease = before.contest.slots[i]->Occupied_0;
    assert(lease.subject.len() + lease.owner.len() <= state::CONTEST_STATE_PAYLOAD_MAX);
}

/// A recorded lease is found, and nothing else is: a subject has a lease exactly where
/// one slot holds it under that kind and label, and it holds the subject exactly until
/// its expiry.
pub proof fn law_a_recorded_lease_is_found(
    table: TableView,
    kind: u8,
    subject: Seq<u8>,
    lease: LeaseView,
    now: u64,
)
    requires
        table.consistent(),
    ensures
        table.lease_of(kind, subject) == Some(lease) <==> lease.subject_kind == kind
            && lease.subject == subject && exists|i: int|
            0 <= i < table.slots.len() && #[trigger] table.slots[i] == SlotView::Occupied(lease),
        table.holder_of(kind, subject, now) == Some(lease) <==> table.lease_of(kind, subject)
            == Some(lease) && lease.expires_at_ms > now,
{
    model::lemma_find(table, kind, subject);
    if table.lease_of(kind, subject) == Some(lease) {
        let i = table.find(kind, subject)->Some_0;
        assert(table.slots[i] == SlotView::Occupied(lease));
    }
    if lease.subject_kind == kind && lease.subject == subject && exists|i: int|
        0 <= i < table.slots.len() && #[trigger] table.slots[i] == SlotView::Occupied(lease) {
        let i = choose|i: int|
            0 <= i < table.slots.len() && #[trigger] table.slots[i] == SlotView::Occupied(lease);
        assert(table.holds_at(i, kind, subject));
        model::lemma_lease_at(table, i, kind, subject);
    }
}

/// A live holder can always renew: whoever names the claim of a lease that has not run
/// out gets it back with the later of the two expiries and everything else as it was,
/// however long the tenure has lasted. The table records that lease, and every other
/// subject is as it was.
pub proof fn law_a_live_holder_can_always_renew(
    table: TableView,
    kind: u8,
    subject: Seq<u8>,
    held: LeaseView,
    expires_at_ms: u64,
    now: u64,
    other_kind: u8,
    other_subject: Seq<u8>,
)
    requires
        table.consistent(),
        table.lease_of(kind, subject) == Some(held),
        held.expires_at_ms > now,
    ensures
        ({
            let extended = LeaseView {
                claim_id: held.claim_id,
                subject_kind: kind,
                subject,
                owner: held.owner,
                claimed_at_ms: held.claimed_at_ms,
                expires_at_ms: if expires_at_ms >= held.expires_at_ms {
                    expires_at_ms
                } else {
                    held.expires_at_ms
                },
            };
            let after = table.after_renew(kind, subject, held.claim_id, expires_at_ms, now);
            &&& table.renewed(kind, subject, held.claim_id, expires_at_ms, now) == Some(extended)
            &&& after.lease_of(kind, subject) == Some(extended)
            &&& after.next_claim == table.next_claim
            &&& other_kind != kind || other_subject != subject ==> after.lease_of(
                other_kind,
                other_subject,
            ) == table.lease_of(other_kind, other_subject)
        }),
{
    let after = table.after_renew(kind, subject, held.claim_id, expires_at_ms, now);
    law_a_recorded_lease_is_found(table, kind, subject, held, now);
    model::lemma_find(table, kind, subject);
    let i = table.find(kind, subject)->Some_0;
    model::lemma_renew_consistent(table, kind, subject, held.claim_id, expires_at_ms, now);
    assert(after.holds_at(i, kind, subject));
    model::lemma_lease_at(after, i, kind, subject);
    if other_kind != kind || other_subject != subject {
        model::lemma_find(table, other_kind, other_subject);
        model::lemma_find(after, other_kind, other_subject);
        if let Some(j) = table.find(other_kind, other_subject) {
            assert(after.holds_at(j, other_kind, other_subject));
            model::lemma_lease_at(after, j, other_kind, other_subject);
        } else if let Some(j) = after.find(other_kind, other_subject) {
            assert(table.holds_at(j, other_kind, other_subject));
            model::lemma_lease_at(table, j, other_kind, other_subject);
        }
    }
}

/// Nobody else can renew: where no lease is recorded, where it names another claim, or
/// where it has run out, a renewal gives nothing and changes nothing.
pub proof fn law_only_a_live_holder_renews(
    table: TableView,
    kind: u8,
    subject: Seq<u8>,
    claim_id: NetId64,
    expires_at_ms: u64,
    now: u64,
)
    requires
        table.lease_of(kind, subject) matches Some(held) ==> held.claim_id != claim_id
            || held.expires_at_ms <= now,
    ensures
        table.renewed(kind, subject, claim_id, expires_at_ms, now) is None,
        table.after_renew(kind, subject, claim_id, expires_at_ms, now) == table,
{
}

/// A release is for the claim it names: it ends the lease of that claim, live or not,
/// and where none is recorded or another claim holds the subject it changes nothing.
pub proof fn law_a_release_ends_only_its_claim(
    table: TableView,
    kind: u8,
    subject: Seq<u8>,
    claim_id: NetId64,
)
    requires
        table.consistent(),
    ensures
        ({
            let after = table.after_release(kind, subject, claim_id);
            &&& after.next_claim == table.next_claim
            &&& match table.lease_of(kind, subject) {
                Some(held) => if held.claim_id == claim_id {
                    after.lease_of(kind, subject) is None
                } else {
                    after == table
                },
                None => after == table,
            }
        }),
{
    if let Some(held) = table.lease_of(kind, subject) {
        if held.claim_id == claim_id {
            law_release_frees_the_subject(table, kind, subject, held, kind, subject);
        }
    }
}

/// A subject that nobody holds can be claimed: where a claim counter is left, the term
/// is not over before it begins, and any slot is unused, given back, or held by a lease
/// that has run out, the claim is granted, with everything as it was asked for and the
/// next counter. The table then records that lease.
pub proof fn law_an_unheld_subject_is_granted(table: TableView, request: ClaimRequest, i: int)
    requires
        table.consistent(),
        table.next_claim < id::COUNTER_SPAN,
        request.subject.len() + request.owner.len() <= 235,
        request.expires_at_ms > request.claimed_at_ms,
        table.lease_of(request.kind, request.subject) matches Some(held) ==> held.expires_at_ms
            <= request.claimed_at_ms,
        0 <= i < table.slots.len(),
        match table.slots[i] {
            SlotView::Empty => true,
            SlotView::Tombstone => true,
            SlotView::Occupied(lease) => lease.expires_at_ms <= request.claimed_at_ms,
            SlotView::Blocked { until } => until matches Some(at) && at <= request.claimed_at_ms,
        },
    ensures
        ({
            let granted = LeaseView {
                claim_id: NetId64::minted(222, request.node, table.next_claim as nat),
                subject_kind: request.kind,
                subject: request.subject,
                owner: request.owner,
                claimed_at_ms: request.claimed_at_ms,
                expires_at_ms: request.expires_at_ms,
            };
            let after = table.after_claim(request);
            &&& table.claim_outcome(request) == Ok::<ClaimView, Error>(ClaimView::Claimed(granted))
            &&& after.lease_of(request.kind, request.subject) == Some(granted)
            &&& after.next_claim == table.next_claim + 1
        }),
{
    let lease = table.requested(request);
    law_claims_yield_to_the_holder(table, request, lease);
    law_a_full_table_evicts_nobody(table, request);
    assert(table.slots[i].free(request.claimed_at_ms));
    law_a_granted_claim_holds_the_subject(table, request, lease, request.claimed_at_ms);
}

/// What else a claim can meet: a live lease of the subject is the answer and costs no
/// counter; with no counter left a claim of an unheld subject is refused; a term that is
/// over before it begins spends a counter and grants nothing; and with every slot in use
/// a claim spends a counter and is refused.
pub proof fn law_claims_that_are_not_granted(table: TableView, request: ClaimRequest, held: LeaseView)
    requires
        table.consistent(),
        request.subject.len() + request.owner.len() <= 235,
    ensures
        ({
            let now = request.claimed_at_ms;
            let recorded = table.lease_of(request.kind, request.subject);
            let outcome = table.claim_outcome(request);
            let after = table.after_claim(request);
            let unheld = recorded matches Some(lease) ==> lease.expires_at_ms <= now;
            let in_use = forall|i: int|
                0 <= i < table.slots.len() ==> match #[trigger] table.slots[i] {
                    SlotView::Empty => false,
                    SlotView::Tombstone => false,
                    SlotView::Occupied(lease) => lease.expires_at_ms > now,
                    SlotView::Blocked { until } => until matches Some(at) ==> at > now,
                };
            &&& recorded == Some(held) && held.expires_at_ms > now ==> {
                &&& outcome == Ok::<ClaimView, Error>(ClaimView::Occupied(held))
                &&& after.next_claim == table.next_claim
                &&& after.lease_of(request.kind, request.subject) == Some(held)
            }
            &&& unheld && table.next_claim == id::COUNTER_SPAN ==> {
                &&& outcome == Err::<ClaimView, Error>(Error::ContestIdExhausted)
                &&& after.next_claim == table.next_claim
            }
            &&& unheld && table.next_claim < id::COUNTER_SPAN ==> after.next_claim
                == table.next_claim + 1
            &&& unheld && table.next_claim < id::COUNTER_SPAN && request.expires_at_ms <= now ==> {
                &&& outcome matches Ok(ClaimView::BornExpired(lease)) && lease.claim_id
                    == NetId64::minted(222, request.node, table.next_claim as nat)
                    && lease.subject_kind == request.kind && lease.subject == request.subject
                    && lease.owner == request.owner && lease.claimed_at_ms == now
                    && lease.expires_at_ms == request.expires_at_ms
                &&& after.holder_of(request.kind, request.subject, now) is None
            }
            &&& unheld && table.next_claim < id::COUNTER_SPAN && request.expires_at_ms > now
                && in_use ==> {
                &&& outcome == Err::<ClaimView, Error>(Error::ContestStateFull { capacity: 1024 })
                &&& after.slots == table.slots
            }
        }),
{
    let now = request.claimed_at_ms;
    let kind = request.kind;
    let subject = request.subject;
    let after = table.after_claim(request);
    let recorded = table.lease_of(kind, subject);
    law_claims_yield_to_the_holder(table, request, held);
    model::lemma_claim_consistent(table, request);
    model::lemma_find(table, kind, subject);
    model::lemma_find(after, kind, subject);
    if recorded == Some(held) && held.expires_at_ms > now {
        let i = table.find(kind, subject)->Some_0;
        assert(after.slots[i] == table.slots[i]);
        assert(after.holds_at(i, kind, subject));
        model::lemma_lease_at(after, i, kind, subject);
    } else if recorded matches Some(lease) ==> lease.expires_at_ms <= now {
        if table.next_claim < id::COUNTER_SPAN && request.expires_at_ms <= now {
            if let Some(i) = after.find(kind, subject) {
                assert(after.slots[i] == table.slots[i]);
                assert(table.holds_at(i, kind, subject));
                model::lemma_lease_at(table, i, kind, subject);
            }
        }
        if table.next_claim < id::COUNTER_SPAN && request.expires_at_ms > now {
            law_a_full_table_evicts_nobody(table, request);
        }
    }
}

/// A claim touches its probe path alone: every slot stays as it was, but for the one
/// that takes a granted lease and for those whose lease has run out, which are given
/// back. A granted lease goes to the nearest slot on the path that can be used.
pub proof fn law_claims_touch_little(table: TableView, request: ClaimRequest, i: int)
    requires
        table.consistent(),
        request.subject.len() + request.owner.len() <= 235,
        0 <= i < table.slots.len(),
    ensures
        ({
            let now = request.claimed_at_ms;
            let before = table.slots[i];
            let after = table.after_claim(request);
            let home = state::subject_hash_of(request.kind, request.subject) as int % 1024;
            let over = match before {
                SlotView::Occupied(lease) => lease.expires_at_ms <= now,
                SlotView::Blocked { until } => until matches Some(at) && at <= now,
                _ => false,
            };
            let grants = table.claim_outcome(request) is Ok && table.claim_outcome(
                request,
            )->Ok_0 is Claimed;
            let lease = table.claim_outcome(request)->Ok_0->Claimed_0;
            &&& after.slots.len() == table.slots.len()
            &&& after.slots[i] == before || (over && after.slots[i] == SlotView::Tombstone) || (
            grants && after.slots[i] == SlotView::Occupied(lease))
            &&& grants && after.slots[i] == SlotView::Occupied(lease) ==> {
                &&& before is Empty || before is Tombstone || over
                &&& forall|steps: int|
                    0 <= steps < (i - home) % 1024 ==> match #[trigger] table.slots[(home + steps)
                        % 1024] {
                        SlotView::Occupied(other) => other.expires_at_ms > now,
                        SlotView::Blocked { until } => until matches Some(at) ==> at > now,
                        _ => false,
                    }
            }
        }),
{
    let now = request.claimed_at_ms;
    let kind = request.kind;
    let subject = request.subject;
    let after = table.after_claim(request);
    let home = table.home(kind, subject);
    let free = table.first_free(kind, subject, now);
    let pred = |slot: SlotView| slot.free(now);
    model::lemma_first_offset(table.slots, home, pred, 0);
    let outcome = table.claim_outcome(request);
    if outcome is Ok && outcome->Ok_0 is Claimed {
        let lease = outcome->Ok_0->Claimed_0;
        let at = model::probe(home, free, table.capacity());
        law_a_granted_claim_holds_the_subject(table, request, lease, now);
        model::lemma_claim_consistent(table, request);
        assert(pred(table.slots[at]));
        if after.slots[i] == SlotView::Occupied(lease) {
            assert(after.holds_at(i, kind, subject));
            assert(after.holds_at(at, kind, subject));
            model::lemma_lease_at(after, i, kind, subject);
            model::lemma_lease_at(after, at, kind, subject);
            assert(i == at);
            assert((i - home) % 1024 == free);
            assert forall|steps: int| 0 <= steps < (i - home) % 1024 implies match #[trigger] table.slots[(
            home + steps) % 1024] {
                SlotView::Occupied(other) => other.expires_at_ms > now,
                SlotView::Blocked { until } => until matches Some(at) ==> at > now,
                _ => false,
            } by {
                assert(model::probe(home, steps, table.capacity()) == (home + steps) % 1024);
                assert(!pred(table.slots[model::probe(home, steps, table.capacity())]));
            }
        }
    }
}

/// Labels that are too long are refused as such: a claim whose subject and owner have
/// more than 235 bytes together answers with their lengths and changes nothing, and no
/// other claim is refused for its labels.
pub proof fn law_labels_are_bounded(
    before: FleetView,
    after: FleetView,
    result: Result<Claim>,
    request: ClaimRequest,
)
    requires
        guard::claim_answers(before, after, result, request),
        request.subject.len() <= usize::MAX,
        request.owner.len() <= usize::MAX,
    ensures
        request.subject.len() + request.owner.len() > 235 ==> {
            &&& after == before
            &&& result == Err::<Claim, Error>(
                Error::ContestEntryTooLarge {
                    subject_len: request.subject.len() as usize,
                    owner_len: request.owner.len() as usize,
                    max_payload: 235,
                },
            )
        },
        request.subject.len() + request.owner.len() <= 235 ==> (result is Err
            ==> !(result->Err_0 is ContestEntryTooLarge)),
{
}

/// A claim of an unheld subject gives a guard for its whole term: the guard shows the
/// subject, the owner and the moment of the claim, and an expiry that is the term later,
/// or the end of time where the sum would not fit. The table holds the subject that long.
pub proof fn law_a_granted_guard_lasts_for_its_term(
    before: FleetView,
    after: FleetView,
    result: Result<Claim>,
    subject: ContestSubject,
    owner: ContestOwner,
    ttl_ms: u128,
    now_ms: u64,
    i: int,
    later: u64,
)
    requires
        before.consistent(),
        before.contest.next_claim < id::COUNTER_SPAN,
        vstd::utf8::encode_utf8(subject.spec_label()).len() + vstd::utf8::encode_utf8(
            owner.spec_text(),
        ).len() <= 235,
        ttl_ms > 0,
        now_ms < u64::MAX,
        before.contest.lease_of(
            subject.spec_kind(),
            vstd::utf8::encode_utf8(subject.spec_label()),
        ) matches Some(held) ==> held.expires_at_ms <= now_ms,
        0 <= i < before.contest.slots.len(),
        match before.contest.slots[i] {
            SlotView::Empty => true,
            SlotView::Tombstone => true,
            SlotView::Occupied(lease) => lease.expires_at_ms <= now_ms,
            SlotView::Blocked { until } => until matches Some(at) && at <= now_ms,
        },
        guard::claim_answers(
            before,
            after,
            result,
            guard::claim_request(before.node, &subject, &owner, ttl_ms, now_ms),
        ),
    ensures
        ({
            let end: int = if now_ms + ttl_ms <= u64::MAX {
                now_ms + ttl_ms
            } else {
                u64::MAX as int
            };
            &&& result matches Ok(Claim::Claimed(guard)) && guard.spec_release_on_drop()
                && guard.spec_holder() == (HolderView {
                claim_id: NetId64::minted(222, before.node, before.contest.next_claim as nat),
                kind: subject.spec_kind(),
                subject: subject.spec_label(),
                owner: owner.spec_text(),
                claimed_at_ms: now_ms,
                expires_at_ms: end as u64,
            })
            &&& after.contest.holder_of(
                subject.spec_kind(),
                vstd::utf8::encode_utf8(subject.spec_label()),
                later,
            ) is Some <==> later < end
        }),
{
    let request = guard::claim_request(before.node, &subject, &owner, ttl_ms, now_ms);
    law_an_unheld_subject_is_granted(before.contest, request, i);
    vstd::utf8::encode_utf8_valid_utf8(subject.spec_label());
    vstd::utf8::encode_utf8_decode_utf8(subject.spec_label());
    vstd::utf8::encode_utf8_valid_utf8(owner.spec_text());
    vstd::utf8::encode_utf8_decode_utf8(owner.spec_text());
}

/// A claim of a held subject shows the holder: the claim, the kind and the times as they
/// are recorded, and the labels as text where they are text. Nothing is granted.
pub proof fn law_a_yielding_claim_shows_the_holder(
    before: FleetView,
    after: FleetView,
    result: Result<Claim>,
    request: ClaimRequest,
    held: LeaseView,
    subject: Seq<char>,
    owner: Seq<char>,
)
    requires
        before.consistent(),
        request.subject.len() + request.owner.len() <= 235,
        before.contest.lease_of(request.kind, request.subject) == Some(held),
        held.expires_at_ms > request.claimed_at_ms,
        held.subject == vstd::utf8::encode_utf8(subject),
        held.owner == vstd::utf8::encode_utf8(owner),
        guard::claim_answers(before, after, result, request),
    ensures
        result matches Ok(Claim::YieldTo(holder)) && holder@ == (HolderView {
            claim_id: held.claim_id,
            kind: request.kind,
            subject,
            owner,
            claimed_at_ms: held.claimed_at_ms,
            expires_at_ms: held.expires_at_ms,
        }),
{
    law_claims_that_are_not_granted(before.contest, request, held);
    law_a_recorded_lease_is_found(
        before.contest,
        request.kind,
        request.subject,
        held,
        request.claimed_at_ms,
    );
    vstd::utf8::encode_utf8_valid_utf8(subject);
    vstd::utf8::encode_utf8_decode_utf8(subject);
    vstd::utf8::encode_utf8_valid_utf8(owner);
    vstd::utf8::encode_utf8_decode_utf8(owner);
}

/// A guard renews as long as its lease is live: it answers with the claim, the guard
/// shows the later of the old expiry and the moment a term from now, and nothing else of
/// it changes. The table records the same expiry.
pub proof fn law_a_live_guard_can_always_renew(
    before: FleetView,
    after: FleetView,
    holder: HolderView,
    renewed: HolderView,
    result: Result<NetId64>,
    held: LeaseView,
    ttl_ms: u128,
    now_ms: u64,
)
    requires
        before.consistent(),
        before.contest.lease_of(holder.kind, vstd::utf8::encode_utf8(holder.subject)) == Some(held),
        held.claim_id == holder.claim_id,
        held.expires_at_ms > now_ms,
        guard::renew_answers(before, after, result, holder, renewed, ttl_ms, now_ms),
    ensures
        ({
            let asked: int = if now_ms + ttl_ms <= u64::MAX {
                now_ms + ttl_ms
            } else {
                u64::MAX as int
            };
            let end: int = if asked >= held.expires_at_ms {
                asked
            } else {
                held.expires_at_ms as int
            };
            &&& result == Ok::<NetId64, Error>(holder.claim_id)
            &&& renewed == (HolderView { expires_at_ms: end as u64, ..holder })
            &&& after.contest.lease_of(holder.kind, vstd::utf8::encode_utf8(holder.subject))
                == Some(LeaseView { expires_at_ms: end as u64, ..held })
        }),
{
    let subject = vstd::utf8::encode_utf8(holder.subject);
    let asked: u64 = if now_ms + ttl_ms <= u64::MAX {
        (now_ms + ttl_ms) as u64
    } else {
        u64::MAX
    };
    model::lemma_find(before.contest, holder.kind, subject);
    let i = before.contest.find(holder.kind, subject)->Some_0;
    let lease = before.contest.slots[i]->Occupied_0;
    assert(lease.subject.len() + lease.owner.len() <= state::CONTEST_STATE_PAYLOAD_MAX);
    law_a_live_holder_can_always_renew(
        before.contest,
        holder.kind,
        subject,
        held,
        asked,
        now_ms,
        holder.kind,
        subject,
    );
}

/// Leases that have run out are given back on the way: a claim that passes such a slot,
/// because no slot in front of it on the path is unused or holds the subject, leaves it
/// free or takes it for its own lease.
pub proof fn law_lapsed_leases_are_given_back(table: TableView, request: ClaimRequest, i: int)
    requires
        table.consistent(),
        0 <= i < table.slots.len(),
        match table.slots[i] {
            SlotView::Occupied(lease) => lease.expires_at_ms <= request.claimed_at_ms,
            SlotView::Blocked { until } => until matches Some(at) && at <= request.claimed_at_ms,
            _ => false,
        },
        forall|steps: int|
            0 <= steps < (i - table.home(request.kind, request.subject)) % 1024
                ==> match #[trigger] table.slots[(table.home(request.kind, request.subject) + steps)
                % 1024] {
                SlotView::Empty => false,
                SlotView::Occupied(lease) => lease.expires_at_ms <= request.claimed_at_ms
                    || lease.subject_kind != request.kind || lease.subject != request.subject,
                _ => true,
            },
    ensures
        ({
            let after = table.after_claim(request).slots[i];
            after is Tombstone || (after is Occupied && table.claim_outcome(request) == Ok::<
                ClaimView,
                Error,
            >(ClaimView::Claimed(after->Occupied_0)))
        }),
{
    let now = request.claimed_at_ms;
    let kind = request.kind;
    let subject = request.subject;
    let home = table.home(kind, subject);
    let pred = |slot: SlotView| slot.ends_claim(kind, subject, now);
    let end = table.claim_end(kind, subject, now);
    let d = model::distance(home, i, table.capacity());
    model::lemma_first_offset(table.slots, home, pred, 0);
    assert(d == (i - home) % 1024);
    if end < d {
        let at = model::probe(home, end, table.capacity());
        assert(at == (home + end) % 1024);
        assert(pred(table.slots[at]));
        assert(false);
    }
    if end == d {
        assert(model::probe(home, d, table.capacity()) == i);
        assert(pred(table.slots[i]));
        assert(false);
    }
    assert(table.probed(kind, subject, now).slots[i] == SlotView::Tombstone);
    model::lemma_first_offset(table.slots, home, |slot: SlotView| slot.free(now), 0);
    let outcome = table.claim_outcome(request);
    if outcome is Ok && outcome->Ok_0 is Claimed {
        let lease = outcome->Ok_0->Claimed_0;
        let at = model::probe(home, table.first_free(kind, subject, now), table.capacity());
        assert(0 <= at < table.capacity());
        assert(table.after_claim(request).slots == table.probed(kind, subject, now).slots.update(
            at,
            SlotView::Occupied(lease),
        ));
    } else {
        assert(table.after_claim(request).slots == table.probed(kind, subject, now).slots);
    }
}

/// A release answers with its claim whatever the table holds: as long as the label could
/// be one of the table, it succeeds, and the rings, the counters and every other subject
/// stay as they were. A label of more than 235 bytes is refused with its length.
pub proof fn law_releases_answer_with_their_claim(
    before: FleetView,
    after: FleetView,
    result: Result<NetId64>,
    holder: HolderView,
    other_kind: u8,
    other_subject: Seq<u8>,
)
    requires
        before.consistent(),
        guard::release_answers(before, after, result, holder),
    ensures
        ({
            let subject = vstd::utf8::encode_utf8(holder.subject);
            &&& subject.len() <= 235 ==> result == Ok::<NetId64, Error>(holder.claim_id)
            &&& subject.len() > 235 ==> after == before && result == Err::<NetId64, Error>(
                Error::ContestEntryTooLarge {
                    subject_len: subject.len() as usize,
                    owner_len: 0,
                    max_payload: 235,
                },
            )
            &&& after.rings == before.rings
            &&& after.minted == before.minted
            &&& after.contest.next_claim == before.contest.next_claim
            &&& other_kind != holder.kind || other_subject != subject ==> after.contest.lease_of(
                other_kind,
                other_subject,
            ) == before.contest.lease_of(other_kind, other_subject)
        }),
{
    let subject = vstd::utf8::encode_utf8(holder.subject);
    if let Some(lease) = before.contest.lease_of(holder.kind, subject) {
        if lease.claim_id == holder.claim_id {
            law_release_frees_the_subject(
                before.contest,
                holder.kind,
                subject,
                lease,
                other_kind,
                other_subject,
            );
        }
    }
}

/// A guard whose lease is gone is told so: where no lease of its subject is recorded, or
/// it names another claim, or it has run out, a renewal answers that the lease is lost,
/// the guard shows what it showed, and nothing changes.
pub proof fn law_a_lost_lease_cannot_be_renewed(
    before: FleetView,
    after: FleetView,
    holder: HolderView,
    renewed: HolderView,
    result: Result<NetId64>,
    ttl_ms: u128,
    now_ms: u64,
)
    requires
        vstd::utf8::encode_utf8(holder.subject).len() <= 235,
        before.contest.lease_of(holder.kind, vstd::utf8::encode_utf8(holder.subject)) matches Some(
            held,
        ) ==> held.claim_id != holder.claim_id || held.expires_at_ms <= now_ms,
        guard::renew_answers(before, after, result, holder, renewed, ttl_ms, now_ms),
    ensures
        result == Err::<NetId64, Error>(Error::ContestLeaseLost { claim_id: holder.claim_id }),
        renewed == holder,
        after == before,
{
}

/// A claim that is refused says why, and one whose term is over before it begins is told
/// to yield to its own lapsed lease. The rings and the minted counters stay either way.
pub proof fn law_a_refused_claim_says_why(
    before: FleetView,
    after: FleetView,
    result: Result<Claim>,
    request: ClaimRequest,
    subject: Seq<char>,
    owner: Seq<char>,
)
    requires
        before.consistent(),
        request.subject.len() + request.owner.len() <= 235,
        before.contest.lease_of(request.kind, request.subject) matches Some(held)
            ==> held.expires_at_ms <= request.claimed_at_ms,
        request.subject == vstd::utf8::encode_utf8(subject),
        request.owner == vstd::utf8::encode_utf8(owner),
        guard::claim_answers(before, after, result, request),
    ensures
        ({
            let now = request.claimed_at_ms;
            let spent = before.contest.next_claim == id::COUNTER_SPAN;
            let in_use = forall|i: int|
                0 <= i < before.contest.slots.len() ==> match #[trigger] before.contest.slots[i] {
                    SlotView::Empty => false,
                    SlotView::Tombstone => false,
                    SlotView::Occupied(lease) => lease.expires_at_ms > now,
                    SlotView::Blocked { until } => until matches Some(at) ==> at > now,
                };
            &&& spent ==> result == Err::<Claim, Error>(Error::ContestIdExhausted)
            &&& !spent && request.expires_at_ms > now && in_use ==> result == Err::<Claim, Error>(
                Error::ContestStateFull { capacity: 1024 },
            )
            &&& !spent && request.expires_at_ms <= now ==> (result matches Ok(
                Claim::YieldTo(holder),
            ) && holder@ == (HolderView {
                claim_id: NetId64::minted(222, request.node, before.contest.next_claim as nat),
                kind: request.kind,
                subject,
                owner,
                claimed_at_ms: now,
                expires_at_ms: request.expires_at_ms,
            }))
            &&& after.rings == before.rings
            &&& after.minted == before.minted
            &&& after.node == before.node
        }),
{
    law_claims_that_are_not_granted(
        before.contest,
        request,
        before.contest.requested(request),
    );
    vstd::utf8::encode_utf8_valid_utf8(subject);
    vstd::utf8::encode_utf8_decode_utf8(subject);
    vstd::utf8::encode_utf8_valid_utf8(owner);
    vstd::utf8::encode_utf8_decode_utf8(owner);
}

/// Whether a slot holds a lease under this kind and label.
pub open spec fn keeps(slot: SlotView, kind: u8, subject: Seq<u8>) -> bool {
    slot matches SlotView::Occupied(lease) && lease.subject_kind == kind && lease.subject == subject
}

/// A search goes slot by slot from the home of its subject, whatever the table holds: it
/// finds the first lease of the subject, and gives up at the first unused slot or after
/// all slots.
pub proof fn law_a_search_goes_slot_by_slot(
    table: TableView,
    kind: u8,
    subject: Seq<u8>,
    steps: int,
)
    requires
        table.slots.len() > 0,
        0 <= steps <= table.slots.len(),
        forall|o: int|
            0 <= o < steps ==> {
                let slot = #[trigger] table.slots[(table.home(kind, subject) + o)
                    % table.slots.len() as int];
                !(slot is Empty) && !keeps(slot, kind, subject)
            },
    ensures
        ({
            let at = (table.home(kind, subject) + steps) % table.slots.len() as int;
            let slot = table.slots[at];
            &&& steps == table.slots.len() ==> table.lease_of(kind, subject) is None
            &&& steps < table.slots.len() && slot is Empty ==> table.lease_of(kind, subject) is None
            &&& steps < table.slots.len() && keeps(slot, kind, subject) ==> table.find(kind, subject)
                == Some(at) && table.lease_of(kind, subject) == Some(slot->Occupied_0)
        }),
{
    let home = table.home(kind, subject);
    let count = table.slots.len() as int;
    let pred = |slot: SlotView| slot.ends_find(kind, subject);
    let offset = model::first_offset(table.slots, home, pred, 0);
    model::lemma_first_offset(table.slots, home, pred, 0);
    if offset < steps {
        let i = model::probe(home, offset, count);
        lemma_probe_wraps(home, offset, count);
        assert(pred(table.slots[i]));
        assert(false);
    }
    if offset < count {
        lemma_probe_wraps(home, offset, count);
    }
    if steps < count {
        lemma_probe_wraps(home, steps, count);
        if offset > steps {
            assert(!pred(table.slots[model::probe(home, steps, count)]));
        }
    }
}

/// Steps along a probe path wrap at the end of the table.
proof fn lemma_probe_wraps(home: int, offset: int, count: int)
    requires
        0 <= home < count,
        0 <= offset < count,
    ensures
        model::probe(home, offset, count) == (home + offset) % count,
{
    if home + offset < count {
        vstd::arithmetic::div_mod::lemma_small_mod((home + offset) as nat, count as nat);
    } else {
        vstd::arithmetic::div_mod::lemma_small_mod((home + offset - count) as nat, count as nat);
        vstd::arithmetic::div_mod::lemma_mod_sub_multiples_vanish(home + offset, count);
    }
}

/// A claim goes slot by slot from the home of its subject, whatever the table holds: it
/// yields to the first live lease of the subject that it meets before an unused slot, and
/// to nothing else.
pub proof fn law_a_claim_goes_slot_by_slot(table: TableView, request: ClaimRequest, steps: int)
    requires
        table.slots.len() > 0,
        0 <= steps <= table.slots.len(),
        forall|o: int|
            0 <= o < steps ==> {
                let slot = #[trigger] table.slots[(table.home(request.kind, request.subject) + o)
                    % table.slots.len() as int];
                !(slot is Empty) && !(keeps(slot, request.kind, request.subject)
                    && slot->Occupied_0.expires_at_ms > request.claimed_at_ms)
            },
    ensures
        ({
            let at = (table.home(request.kind, request.subject) + steps)
                % table.slots.len() as int;
            let slot = table.slots[at];
            let outcome = table.claim_outcome(request);
            &&& steps == table.slots.len() || slot is Empty ==> !(outcome is Ok
                && outcome->Ok_0 is Occupied)
            &&& steps < table.slots.len() && keeps(slot, request.kind, request.subject)
                && slot->Occupied_0.expires_at_ms > request.claimed_at_ms ==> outcome == Ok::<
                ClaimView,
                Error,
            >(ClaimView::Occupied(slot->Occupied_0)) && table.after_claim(request).next_claim
                == table.next_claim
        }),
{
    let kind = request.kind;
    let subject = request.subject;
    let now = request.claimed_at_ms;
    let home = table.home(kind, subject);
    let count = table.slots.len() as int;
    let pred = |slot: SlotView| slot.ends_claim(kind, subject, now);
    let end = table.claim_end(kind, subject, now);
    model::lemma_first_offset(table.slots, home, pred, 0);
    if end < steps {
        lemma_probe_wraps(home, end, count);
        assert(pred(table.slots[model::probe(home, end, count)]));
        assert(false);
    }
    if end < count {
        lemma_probe_wraps(home, end, count);
    }
    if steps < count {
        lemma_probe_wraps(home, steps, count);
        if end > steps {
            assert(!pred(table.slots[model::probe(home, steps, count)]));
        }
    }
}

/// A renewal and a release touch the slot of the lease alone, whatever the table holds: a
/// live lease of that claim gets the later expiry, and a lease of that claim is given
/// back, each in its own slot; every other slot stays.
pub proof fn law_renewals_and_releases_touch_one_slot(
    table: TableView,
    kind: u8,
    subject: Seq<u8>,
    held: LeaseView,
    expires_at_ms: u64,
    now: u64,
    i: int,
)
    requires
        table.slots.len() > 0,
        table.lease_of(kind, subject) == Some(held),
        0 <= i < table.slots.len(),
    ensures
        ({
            let at = table.find(kind, subject)->Some_0;
            let renewed = table.after_renew(kind, subject, held.claim_id, expires_at_ms, now);
            let released = table.after_release(kind, subject, held.claim_id);
            &&& 0 <= at < table.slots.len()
            &&& table.slots[at] == SlotView::Occupied(held)
            &&& held.expires_at_ms > now ==> renewed.slots[at] == SlotView::Occupied(
                LeaseView {
                    expires_at_ms: if held.expires_at_ms < expires_at_ms {
                        expires_at_ms
                    } else {
                        held.expires_at_ms
                    },
                    ..held
                },
            )
            &&& held.expires_at_ms <= now ==> renewed == table
            &&& released.slots[at] == SlotView::Tombstone
            &&& i != at ==> renewed.slots[i] == table.slots[i] && released.slots[i]
                == table.slots[i]
        }),
{
    model::lemma_find(table, kind, subject);
}

} // verus!
