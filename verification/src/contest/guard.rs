//! Contest coordination over one fleet-shared current-state table.
//!
//! A contest is not a race primitive. It turns simultaneous interest in the same
//! typed subject into a small claim/yield protocol: every peer may attempt a
//! claim, the active claimant receives a [`Guard`], and later claimants learn the
//! holder they yield to.

use vstd::prelude::*;

use super::fence::FenceToken;
use super::model::{ClaimRequest, ClaimView, LeaseView, TableView};
use super::state;
use super::state::{LeaseState, StateClaim};
use crate::clock;
use crate::error::{Error, Result};
use crate::fleet::model::FleetView;
use crate::fleet::Fleet;
use crate::id::NetId64;
use crate::text;

verus! {

/// Type namespace for a contest subject.
///
/// This is deliberately smaller than a ring type. A contest subject is not a ring
/// value family; it is a caller-owned namespace inside the shared table.
pub trait ContestType {
    const KIND: u8;
}

/// The typed subject peers coordinate on.
#[derive(Clone, Debug, PartialEq, Eq, Hash)]
pub struct ContestSubject {
    kind: u8,
    label: String,
}

impl ContestSubject {
    pub closed spec fn spec_kind(&self) -> u8 {
        self.kind
    }

    pub closed spec fn spec_label(&self) -> Seq<char> {
        self.label@
    }

    pub fn new<T: ContestType>(label: &str) -> (subject: ContestSubject)
        ensures
            subject.spec_kind() == T::KIND,
            subject.spec_label() == label@,
    {
        ContestSubject { kind: T::KIND, label: label.to_owned() }
    }

    #[verifier::when_used_as_spec(spec_kind)]
    pub fn kind(&self) -> (kind: u8)
        ensures
            kind == self.spec_kind(),
    {
        self.kind
    }

    pub fn label(&self) -> (label: &str)
        ensures
            label@ == self.spec_label(),
    {
        self.label.as_str()
    }

    fn as_bytes(&self) -> (bytes: &[u8])
        ensures
            bytes@ == vstd::utf8::encode_utf8(self.spec_label()),
    {
        self.label.as_str().as_bytes()
    }

    fn from_parts(kind: u8, label: &[u8]) -> (subject: ContestSubject)
        ensures
            subject.spec_kind() == kind,
            subject.spec_label() == text::lossy_text(label@),
            vstd::utf8::valid_utf8(label@) ==> subject.spec_label() == vstd::utf8::decode_utf8(
                label@,
            ),
    {
        ContestSubject { kind, label: text::from_utf8_lossy(label) }
    }
}

/// Observer-facing label for the claimant.
#[derive(Clone, Debug, PartialEq, Eq, Hash)]
pub struct ContestOwner {
    value: String,
}

impl ContestOwner {
    pub closed spec fn spec_text(&self) -> Seq<char> {
        self.value@
    }

    pub fn new(value: &str) -> (owner: ContestOwner)
        ensures
            owner.spec_text() == value@,
    {
        ContestOwner { value: value.to_owned() }
    }

    pub fn as_str(&self) -> (text: &str)
        ensures
            text@ == self.spec_text(),
    {
        self.value.as_str()
    }

    fn as_bytes(&self) -> (bytes: &[u8])
        ensures
            bytes@ == vstd::utf8::encode_utf8(self.spec_text()),
    {
        self.value.as_str().as_bytes()
    }

    fn from_bytes(bytes: &[u8]) -> (owner: ContestOwner)
        ensures
            owner.spec_text() == text::lossy_text(bytes@),
            vstd::utf8::valid_utf8(bytes@) ==> owner.spec_text() == vstd::utf8::decode_utf8(bytes@),
    {
        ContestOwner { value: text::from_utf8_lossy(bytes) }
    }
}

impl vstd::std_specs::convert::FromSpecImpl<String> for ContestOwner {
    open spec fn obeys_from_spec() -> bool {
        true
    }

    closed spec fn from_spec(value: String) -> ContestOwner {
        ContestOwner { value }
    }
}

impl From<String> for ContestOwner {
    fn from(value: String) -> (owner: ContestOwner)
        ensures
            owner.spec_text() == value@,
    {
        ContestOwner { value }
    }
}

impl<'a> vstd::std_specs::convert::FromSpecImpl<&'a str> for ContestOwner {
    open spec fn obeys_from_spec() -> bool {
        false
    }

    closed spec fn from_spec(value: &'a str) -> ContestOwner {
        choose|owner: ContestOwner| owner.spec_text() == value@
    }
}

impl<'a> From<&'a str> for ContestOwner {
    fn from(value: &'a str) -> (owner: ContestOwner)
        ensures
            owner.spec_text() == value@,
    {
        ContestOwner::new(value)
    }
}

impl<'a> vstd::std_specs::convert::FromSpecImpl<&'a String> for ContestOwner {
    open spec fn obeys_from_spec() -> bool {
        false
    }

    closed spec fn from_spec(value: &'a String) -> ContestOwner {
        choose|owner: ContestOwner| owner.spec_text() == value@
    }
}

impl<'a> From<&'a String> for ContestOwner {
    fn from(value: &'a String) -> (owner: ContestOwner)
        ensures
            owner.spec_text() == value@,
    {
        ContestOwner::new(value.as_str())
    }
}

/// Current active holder observed for a subject.
#[derive(Clone, Debug, PartialEq, Eq)]
pub struct Holder {
    pub claim_id: NetId64,
    pub subject: ContestSubject,
    pub owner: ContestOwner,
    pub claimed_at_ms: u64,
    pub expires_at_ms: u64,
}

/// What a holder shows of a lease, as values.
#[verifier::ext_equal]
pub struct HolderView {
    pub claim_id: NetId64,
    pub kind: u8,
    pub subject: Seq<char>,
    pub owner: Seq<char>,
    pub claimed_at_ms: u64,
    pub expires_at_ms: u64,
}

impl View for Holder {
    type V = HolderView;

    open spec fn view(&self) -> HolderView {
        HolderView {
            claim_id: self.claim_id,
            kind: self.subject.spec_kind(),
            subject: self.subject.spec_label(),
            owner: self.owner.spec_text(),
            claimed_at_ms: self.claimed_at_ms,
            expires_at_ms: self.expires_at_ms,
        }
    }
}

/// The holder that shows a lease.
pub open spec fn shown(lease: LeaseView) -> HolderView {
    HolderView {
        claim_id: lease.claim_id,
        kind: lease.subject_kind,
        subject: text::lossy_text(lease.subject),
        owner: text::lossy_text(lease.owner),
        claimed_at_ms: lease.claimed_at_ms,
        expires_at_ms: lease.expires_at_ms,
    }
}

/// Whether the labels of a holder read as those of a lease do, where the lease's
/// bytes are text.
pub open spec fn reads_as(holder: HolderView, lease: LeaseView) -> bool {
    &&& vstd::utf8::valid_utf8(lease.subject) ==> holder.subject == vstd::utf8::decode_utf8(
        lease.subject,
    )
    &&& vstd::utf8::valid_utf8(lease.owner) ==> holder.owner == vstd::utf8::decode_utf8(lease.owner)
}

/// The holder that shows a lease. Label bytes that are no text are shown lossily.
pub fn holder_from_state(lease: LeaseState) -> (holder: Holder)
    ensures
        holder@ == shown(lease@),
        reads_as(holder@, lease@),
{
    Holder {
        claim_id: lease.claim_id,
        subject: ContestSubject::from_parts(lease.subject_kind, lease.subject.as_slice()),
        owner: ContestOwner::from_bytes(lease.owner.as_slice()),
        claimed_at_ms: lease.claimed_at_ms,
        expires_at_ms: lease.expires_at_ms,
    }
}

/// Guard returned to the process that owns the active claim.
///
/// While it lives, the caller carries the responsibility for the contest subject.
/// Relinquishing it clears the matching table entry. If the process is killed
/// before that, the claim remains active only until its expiry.
#[derive(Debug)]
pub struct Guard {
    holder: Holder,
    release_on_drop: bool,
}

/// Outcome of a claim.
#[derive(Debug)]
pub enum Claim {
    Claimed(Guard),
    YieldTo(Holder),
}

impl Claim {
    pub fn is_claimed(&self) -> (yes: bool)
        ensures
            yes == (self is Claimed),
    {
        match self {
            Claim::Claimed(_) => true,
            Claim::YieldTo(_) => false,
        }
    }
}

/// What a claim shows of the table's answer, as values.
pub open spec fn claim_shows(claim: Claim, answer: ClaimView) -> bool {
    match answer {
        ClaimView::Claimed(lease) => claim matches Claim::Claimed(guard) && guard.spec_holder()
            == shown(lease) && reads_as(shown(lease), lease) && guard.spec_release_on_drop(),
        ClaimView::Occupied(lease) => claim matches Claim::YieldTo(holder) && holder@ == shown(
            lease,
        ) && reads_as(holder@, lease),
        ClaimView::BornExpired(lease) => claim matches Claim::YieldTo(holder) && holder@ == shown(
            lease,
        ) && reads_as(holder@, lease),
    }
}

/// The claim that an answer of the table stands for: a guard where the subject was
/// granted, and the holder to yield to otherwise.
pub fn claim_from_state(answer: StateClaim) -> (claim: Claim)
    ensures
        claim_shows(claim, answer@),
{
    match answer {
        StateClaim::Claimed(lease) => Claim::Claimed(Guard::new(holder_from_state(lease))),
        StateClaim::Occupied(lease) => Claim::YieldTo(holder_from_state(lease)),
        StateClaim::BornExpired(lease) => Claim::YieldTo(holder_from_state(lease)),
    }
}

/// The request that a claim of a member makes.
pub open spec fn claim_request(
    node: u16,
    subject: &ContestSubject,
    owner: &ContestOwner,
    ttl_ms: u128,
    now_ms: u64,
) -> ClaimRequest {
    ClaimRequest {
        node,
        kind: subject.spec_kind(),
        subject: vstd::utf8::encode_utf8(subject.spec_label()),
        owner: vstd::utf8::encode_utf8(owner.spec_text()),
        claimed_at_ms: now_ms,
        expires_at_ms: clock::later(now_ms, ttl_ms),
    }
}

/// What a claim of a subject answers and leaves behind.
pub open spec fn claim_answers(
    before: FleetView,
    after: FleetView,
    result: Result<Claim>,
    request: ClaimRequest,
) -> bool {
    if !state::labels_fit(request.subject, request.owner) {
        &&& after == before
        &&& result == Err::<Claim, Error>(state::label_error(request.subject, request.owner))
    } else {
        &&& after == (FleetView { contest: before.contest.after_claim(request), ..before })
        &&& match before.contest.claim_outcome(request) {
            Ok(answer) => result matches Ok(claim) && claim_shows(claim, answer),
            Err(error) => result == Err::<Claim, Error>(error),
        }
    }
}

/// Contest handle. It carries no state of its own: the table belongs to the
/// fleet that each operation is given.
#[derive(Clone, Copy, Debug)]
pub struct Contest {}

impl Contest {
    pub fn new() -> (contest: Contest) {
        Contest {  }
    }

    /// Clear the shared contest table.
    ///
    /// Intended for owner-controlled boot-time cleanup before peer processes
    /// publish claims. It is not a runtime coordination tool.
    pub fn reset(&self, fleet: &mut Fleet) -> (done: Result<()>)
        requires
            old(fleet).wf(),
        ensures
            final(fleet).wf(),
            done is Ok,
            final(fleet)@ == (FleetView { contest: TableView::fresh(), ..old(fleet)@ }),
    {
        fleet.contest_reset();
        Ok(())
    }

    /// The same as [`Contest::reset`].
    pub fn reset_ring(&self, fleet: &mut Fleet) -> (done: Result<()>)
        requires
            old(fleet).wf(),
        ensures
            final(fleet).wf(),
            done is Ok,
            final(fleet)@ == (FleetView { contest: TableView::fresh(), ..old(fleet)@ }),
    {
        self.reset(fleet)
    }

    /// Drop the contest table; the next claim finds a fresh one.
    pub fn unlink(&self, fleet: &mut Fleet) -> (done: Result<()>)
        requires
            old(fleet).wf(),
        ensures
            final(fleet).wf(),
            done is Ok,
            final(fleet)@ == (FleetView { contest: TableView::fresh(), ..old(fleet)@ }),
    {
        self.reset(fleet)
    }

    /// Try to become the active claimant for a typed subject, at the time the
    /// wall clock shows.
    ///
    /// The caller supplies an owner label only for observability.
    pub fn try_claim<T: ContestType>(
        &self,
        fleet: &mut Fleet,
        subject: &str,
        owner: ContestOwner,
        ttl_ms: u128,
    ) -> (result: Result<Claim>)
        requires
            old(fleet).wf(),
        ensures
            final(fleet).wf(),
            exists|now_ms: u64, named: ContestSubject|
                named.spec_kind() == T::KIND && named.spec_label() == subject@ && claim_answers(
                    old(fleet)@,
                    final(fleet)@,
                    result,
                    #[trigger] claim_request(old(fleet)@.node, &named, &owner, ttl_ms, now_ms),
                ),
    {
        let named = ContestSubject::new::<T>(subject);
        self.try_claim_subject(fleet, named, owner, ttl_ms)
    }

    /// Same as [`Contest::try_claim`], but with an explicit clock value.
    pub fn try_claim_at<T: ContestType>(
        &self,
        fleet: &mut Fleet,
        subject: &str,
        owner: ContestOwner,
        ttl_ms: u128,
        now_ms: u64,
    ) -> (result: Result<Claim>)
        requires
            old(fleet).wf(),
        ensures
            final(fleet).wf(),
            claim_answers(
                old(fleet)@,
                final(fleet)@,
                result,
                (ClaimRequest {
                    node: old(fleet)@.node,
                    kind: T::KIND,
                    subject: vstd::utf8::encode_utf8(subject@),
                    owner: vstd::utf8::encode_utf8(owner.spec_text()),
                    claimed_at_ms: now_ms,
                    expires_at_ms: clock::later(now_ms, ttl_ms),
                }),
            ),
    {
        let named = ContestSubject::new::<T>(subject);
        self.try_claim_subject_at(fleet, named, owner, ttl_ms, now_ms)
    }

    /// Try to claim a pre-built subject, at the time the wall clock shows.
    pub fn try_claim_subject(
        &self,
        fleet: &mut Fleet,
        subject: ContestSubject,
        owner: ContestOwner,
        ttl_ms: u128,
    ) -> (result: Result<Claim>)
        requires
            old(fleet).wf(),
        ensures
            final(fleet).wf(),
            exists|now_ms: u64|
                claim_answers(
                    old(fleet)@,
                    final(fleet)@,
                    result,
                    #[trigger] claim_request(old(fleet)@.node, &subject, &owner, ttl_ms, now_ms),
                ),
    {
        let now_ms: u64 = clock::now_ms();
        self.try_claim_subject_at(fleet, subject, owner, ttl_ms, now_ms)
    }

    /// Same as [`Contest::try_claim_subject`], but with an explicit clock.
    pub fn try_claim_subject_at(
        &self,
        fleet: &mut Fleet,
        subject: ContestSubject,
        owner: ContestOwner,
        ttl_ms: u128,
        now_ms: u64,
    ) -> (result: Result<Claim>)
        requires
            old(fleet).wf(),
        ensures
            final(fleet).wf(),
            claim_answers(
                old(fleet)@,
                final(fleet)@,
                result,
                claim_request(old(fleet)@.node, &subject, &owner, ttl_ms, now_ms),
            ),
    {
        let expires_at_ms: u64 = clock::expires_at(now_ms, ttl_ms);
        let claim = fleet.contest_claim(
            subject.kind,
            subject.as_bytes(),
            owner.as_bytes(),
            now_ms,
            expires_at_ms,
        );
        match claim {
            Ok(answer) => Ok(claim_from_state(answer)),
            Err(error) => Err(error),
        }
    }

    /// Turn an observed holder into a guard.
    ///
    /// This is useful for re-entrant owners: a process may observe that it
    /// already owns the active claim, continue carrying the same responsibility,
    /// and release the original claim when the guard is relinquished.
    pub fn guard_holder(&self, holder: Holder) -> (guard: Guard)
        ensures
            guard.spec_holder() == holder@,
            guard.spec_release_on_drop(),
    {
        Guard::new(holder)
    }

    /// Release a holder observed through a yield path.
    pub fn release_holder(&self, fleet: &mut Fleet, holder: &Holder) -> (result: Result<NetId64>)
        requires
            old(fleet).wf(),
        ensures
            final(fleet).wf(),
            release_answers(old(fleet)@, final(fleet)@, result, holder@),
    {
        release_id(fleet, &holder.subject, holder.claim_id)
    }
}

/// What the release of a holder answers and leaves behind.
pub open spec fn release_answers(
    before: FleetView,
    after: FleetView,
    result: Result<NetId64>,
    holder: HolderView,
) -> bool {
    let subject = vstd::utf8::encode_utf8(holder.subject);
    if !state::labels_fit(subject, seq![]) {
        &&& after == before
        &&& result == Err::<NetId64, Error>(state::label_error(subject, seq![]))
    } else {
        &&& after == (FleetView {
            contest: before.contest.after_release(holder.kind, subject, holder.claim_id),
            ..before
        })
        &&& result == Ok::<NetId64, Error>(holder.claim_id)
    }
}

fn release_id(fleet: &mut Fleet, subject: &ContestSubject, claim_id: NetId64) -> (result: Result<
    NetId64,
>)
    requires
        old(fleet).wf(),
    ensures
        final(fleet).wf(),
        forall|holder: HolderView|
            holder.kind == subject.spec_kind() && holder.subject == subject.spec_label()
                && holder.claim_id == claim_id ==> #[trigger] release_answers(
                old(fleet)@,
                final(fleet)@,
                result,
                holder,
            ),
{
    match fleet.contest_release(subject.kind, subject.as_bytes(), claim_id) {
        Ok(_) => Ok(claim_id),
        Err(error) => Err(error),
    }
}

/// What a renewal through a guard answers and leaves behind.
pub open spec fn renew_answers(
    before: FleetView,
    after: FleetView,
    result: Result<NetId64>,
    holder: HolderView,
    renewed: HolderView,
    ttl_ms: u128,
    now_ms: u64,
) -> bool {
    let subject = vstd::utf8::encode_utf8(holder.subject);
    let expires_at_ms = clock::later(now_ms, ttl_ms);
    if !state::labels_fit(subject, seq![]) {
        &&& after == before
        &&& renewed == holder
        &&& result == Err::<NetId64, Error>(state::label_error(subject, seq![]))
    } else {
        &&& after == (FleetView {
            contest: before.contest.after_renew(
                holder.kind,
                subject,
                holder.claim_id,
                expires_at_ms,
                now_ms,
            ),
            ..before
        })
        &&& match before.contest.renewed(
            holder.kind,
            subject,
            holder.claim_id,
            expires_at_ms,
            now_ms,
        ) {
            Some(lease) => {
                &&& result == Ok::<NetId64, Error>(holder.claim_id)
                &&& renewed == (HolderView { expires_at_ms: lease.expires_at_ms, ..holder })
            },
            None => {
                &&& result == Err::<NetId64, Error>(
                    Error::ContestLeaseLost { claim_id: holder.claim_id },
                )
                &&& renewed == holder
            },
        }
    }
}

impl Guard {
    /// The holder this guard stands for.
    pub closed spec fn spec_holder(&self) -> HolderView {
        self.holder@
    }

    /// Whether relinquishing this guard releases the claim.
    pub closed spec fn spec_release_on_drop(&self) -> bool {
        self.release_on_drop
    }

    fn new(holder: Holder) -> (guard: Guard)
        ensures
            guard.spec_holder() == holder@,
            guard.spec_release_on_drop(),
    {
        Guard { holder, release_on_drop: true }
    }

    pub fn holder(&self) -> (holder: &Holder)
        ensures
            holder@ == self.spec_holder(),
    {
        &self.holder
    }

    pub fn claim_id(&self) -> (claim_id: NetId64)
        ensures
            claim_id == self.spec_holder().claim_id,
    {
        self.holder.claim_id
    }

    /// A monotonic fencing token for this tenure: the fleet-wide claim counter,
    /// strictly higher for each successive winner.
    pub fn fence_token(&self) -> (token: FenceToken)
        ensures
            token.spec_get() == self.spec_holder().claim_id.spec_counter(),
    {
        FenceToken::new(self.holder.claim_id.counter())
    }

    pub fn subject(&self) -> (subject: &ContestSubject)
        ensures
            subject.spec_kind() == self.spec_holder().kind,
            subject.spec_label() == self.spec_holder().subject,
    {
        &self.holder.subject
    }

    pub fn owner(&self) -> (owner: &ContestOwner)
        ensures
            owner.spec_text() == self.spec_holder().owner,
    {
        &self.holder.owner
    }

    pub fn expires_at_ms(&self) -> (expires_at_ms: u64)
        ensures
            expires_at_ms == self.spec_holder().expires_at_ms,
    {
        self.holder.expires_at_ms
    }

    /// Extend this tenure by `ttl_ms` from now, without minting a new claim.
    /// Call it before the current lease elapses when work outlives one term.
    pub fn renew(&mut self, fleet: &mut Fleet, ttl_ms: u128) -> (result: Result<NetId64>)
        requires
            old(fleet).wf(),
        ensures
            final(fleet).wf(),
            exists|now_ms: u64| #[trigger]
                renew_answers(
                    old(fleet)@,
                    final(fleet)@,
                    result,
                    old(self).spec_holder(),
                    final(self).spec_holder(),
                    ttl_ms,
                    now_ms,
                ),
            final(self).spec_release_on_drop() == old(self).spec_release_on_drop(),
    {
        let now_ms: u64 = clock::now_ms();
        self.renew_at(fleet, ttl_ms, now_ms)
    }

    /// [`Guard::renew`] with an explicit clock.
    pub fn renew_at(&mut self, fleet: &mut Fleet, ttl_ms: u128, now_ms: u64) -> (result: Result<
        NetId64,
    >)
        requires
            old(fleet).wf(),
        ensures
            final(fleet).wf(),
            renew_answers(
                old(fleet)@,
                final(fleet)@,
                result,
                old(self).spec_holder(),
                final(self).spec_holder(),
                ttl_ms,
                now_ms,
            ),
            final(self).spec_release_on_drop() == old(self).spec_release_on_drop(),
    {
        let expires_at_ms: u64 = clock::expires_at(now_ms, ttl_ms);
        let renewed = fleet.contest_renew(
            self.holder.subject.kind,
            self.holder.subject.as_bytes(),
            self.holder.claim_id,
            expires_at_ms,
            now_ms,
        );
        match renewed {
            Ok(lease) => Ok(self.note_renewal(&lease)),
            Err(error) => Err(error),
        }
    }

    /// Take over the expiry of the renewed lease, and return its identifier.
    pub fn note_renewal(&mut self, renewed: &LeaseState) -> (claim_id: NetId64)
        ensures
            claim_id == renewed.claim_id,
            final(self).spec_holder() == (HolderView {
                expires_at_ms: renewed.expires_at_ms,
                ..old(self).spec_holder()
            }),
            final(self).spec_release_on_drop() == old(self).spec_release_on_drop(),
    {
        self.holder.expires_at_ms = renewed.expires_at_ms;
        renewed.claim_id
    }

    /// Whether relinquishing this guard releases the claim.
    #[verifier::when_used_as_spec(spec_release_on_drop)]
    pub fn release_on_drop(&self) -> (yes: bool)
        ensures
            yes == self.spec_release_on_drop(),
    {
        self.release_on_drop
    }

    /// Note that the claim has been released: relinquishing this guard does nothing
    /// more.
    pub fn note_release(&mut self)
        ensures
            !final(self).spec_release_on_drop(),
            final(self).spec_holder() == old(self).spec_holder(),
    {
        self.release_on_drop = false;
    }

    /// Explicitly release the claim.
    pub fn release(self, fleet: &mut Fleet) -> (result: Result<NetId64>)
        requires
            old(fleet).wf(),
        ensures
            final(fleet).wf(),
            release_answers(old(fleet)@, final(fleet)@, result, self.spec_holder()),
    {
        release_id(fleet, &self.holder.subject, self.holder.claim_id)
    }

    /// Let go of the guard: release its claim, unless that has been done. The
    /// answer is the failure to log, where the release failed.
    pub fn relinquish(&mut self, fleet: &mut Fleet) -> (failed: Option<Error>)
        requires
            old(fleet).wf(),
        ensures
            final(fleet).wf(),
            final(self).spec_holder() == old(self).spec_holder(),
            !old(self).spec_release_on_drop() ==> final(fleet)@ == old(fleet)@ && failed is None
                && !final(self).spec_release_on_drop(),
            old(self).spec_release_on_drop() ==> {
                let result = match failed {
                    Some(error) => Err::<NetId64, Error>(error),
                    None => Ok::<NetId64, Error>(old(self).spec_holder().claim_id),
                };
                &&& release_answers(old(fleet)@, final(fleet)@, result, old(self).spec_holder())
                &&& final(self).spec_release_on_drop() == (failed is Some)
            },
    {
        if !self.release_on_drop {
            return None;
        }
        let released = release_id(fleet, &self.holder.subject, self.holder.claim_id);
        proof {
            assert(release_answers(old(fleet)@, fleet@, released, old(self).spec_holder()));
        }
        match released {
            Ok(_) => {
                self.note_release();
                None
            },
            Err(error) => Some(error),
        }
    }
}

} // verus!
