//! The contest state table as a value.
//!
//! Leases are state, not history: each subject occupies at most one slot of an
//! open-addressed table. A subject's probe path starts at the slot its hash
//! selects and visits every slot once. The functions here say what a claim, a
//! renewal and a release do to the table and what they answer; the proof
//! functions state what holds of every table and every sequence of operations.

use vstd::prelude::*;

use super::state;
use crate::error::Error;
use crate::id;
use crate::id::NetId64;

verus! {

/// One tenure of one subject.
#[verifier::ext_equal]
pub struct LeaseView {
    pub claim_id: NetId64,
    pub subject_kind: u8,
    pub subject: Seq<u8>,
    pub owner: Seq<u8>,
    pub claimed_at_ms: u64,
    pub expires_at_ms: u64,
}

impl LeaseView {
    /// Whether this lease is for the given subject.
    pub open spec fn is_for(self, kind: u8, subject: Seq<u8>) -> bool {
        self.subject_kind == kind && self.subject == subject
    }

    /// Whether the lease still holds at `now`.
    pub open spec fn live(self, now: u64) -> bool {
        self.expires_at_ms > now
    }
}

/// What one slot holds.
pub enum SlotView {
    /// Never used: a probe stops here.
    Empty,
    /// Used before and free again: a probe goes on.
    Tombstone,
    /// A lease.
    Occupied(LeaseView),
    /// Neither free nor a lease that a probe could find: a probe goes on. It is free
    /// from `until` on, if there is such a time.
    Blocked { until: Option<u64> },
}

impl SlotView {
    /// Whether the slot holds the lease of the given subject.
    pub open spec fn holds(self, kind: u8, subject: Seq<u8>) -> bool {
        match self {
            SlotView::Occupied(lease) => lease.is_for(kind, subject),
            _ => false,
        }
    }

    /// Whether the slot is in use and its time has run out at `now`.
    pub open spec fn expired(self, now: u64) -> bool {
        match self {
            SlotView::Occupied(lease) => !lease.live(now),
            SlotView::Blocked { until: Some(until) } => until <= now,
            _ => false,
        }
    }

    /// Whether a claim at `now` may use the slot.
    pub open spec fn free(self, now: u64) -> bool {
        self is Empty || self is Tombstone || self.expired(now)
    }

    /// Whether the probe for the lease of a subject ends at this slot: nothing lies
    /// beyond it, or the lease is found.
    pub open spec fn ends_find(self, kind: u8, subject: Seq<u8>) -> bool {
        self is Empty || self.holds(kind, subject)
    }

    /// Whether the probe of a claim at `now` ends at this slot: nothing lies
    /// beyond it, or the subject is taken.
    pub open spec fn ends_claim(self, kind: u8, subject: Seq<u8>, now: u64) -> bool {
        match self {
            SlotView::Empty => true,
            SlotView::Occupied(lease) => lease.live(now) && lease.is_for(kind, subject),
            _ => false,
        }
    }
}

/// The slot at `offset` steps from `home` in a table of `capacity` slots.
pub open spec fn probe(home: int, offset: int, capacity: int) -> int {
    if home + offset < capacity {
        home + offset
    } else {
        home + offset - capacity
    }
}

/// The number of steps from `home` to the slot `index`.
pub open spec fn distance(home: int, index: int, capacity: int) -> int {
    if index >= home {
        index - home
    } else {
        index - home + capacity
    }
}

/// The first offset at or after `from` whose slot satisfies `pred`, or the
/// capacity where none does.
pub open spec fn first_offset(
    slots: Seq<SlotView>,
    home: int,
    pred: spec_fn(SlotView) -> bool,
    from: int,
) -> int
    decreases slots.len() - from,
{
    if from >= slots.len() || pred(slots[probe(home, from, slots.len() as int)]) {
        from
    } else {
        first_offset(slots, home, pred, from + 1)
    }
}

/// What a claim gives back.
pub enum ClaimView {
    /// The subject is now held by this lease.
    Claimed(LeaseView),
    /// The subject is held by this other lease.
    Occupied(LeaseView),
    /// The requested lease had run out before it began; nothing is held.
    BornExpired(LeaseView),
}

/// The values a claim is made with.
pub struct ClaimRequest {
    pub node: u16,
    pub kind: u8,
    pub subject: Seq<u8>,
    pub owner: Seq<u8>,
    pub claimed_at_ms: u64,
    pub expires_at_ms: u64,
}

/// The contest state: the claim counter and the slots.
#[verifier::ext_equal]
pub struct TableView {
    pub next_claim: u64,
    pub slots: Seq<SlotView>,
}

impl TableView {
    /// A table that nobody has used.
    pub open spec fn fresh() -> TableView {
        TableView {
            next_claim: 0,
            slots: Seq::new(state::CONTEST_STATE_CAPACITY as nat, |i: int| SlotView::Empty),
        }
    }

    pub open spec fn capacity(self) -> int {
        self.slots.len() as int
    }

    /// The slot where the probe path of a subject starts.
    pub open spec fn home(self, kind: u8, subject: Seq<u8>) -> int {
        state::subject_hash_of(kind, subject) as int % self.capacity()
    }

    /// Whether slot `i` holds the lease of a subject.
    pub open spec fn holds_at(self, i: int, kind: u8, subject: Seq<u8>) -> bool {
        0 <= i < self.capacity() && self.slots[i].holds(kind, subject)
    }

    /// The slot in which the probe for a subject finds its lease.
    pub open spec fn find(self, kind: u8, subject: Seq<u8>) -> Option<int> {
        let home = self.home(kind, subject);
        let offset = first_offset(
            self.slots,
            home,
            |slot: SlotView| slot.ends_find(kind, subject),
            0,
        );
        let at = probe(home, offset, self.capacity());
        if offset < self.capacity() && self.slots[at].holds(kind, subject) {
            Some(at)
        } else {
            None
        }
    }

    /// The lease recorded for a subject, live or expired.
    pub open spec fn lease_of(self, kind: u8, subject: Seq<u8>) -> Option<LeaseView> {
        match self.find(kind, subject) {
            Some(at) => Some(self.slots[at]->Occupied_0),
            None => None,
        }
    }

    /// The lease that holds a subject at `now`.
    pub open spec fn holder_of(self, kind: u8, subject: Seq<u8>, now: u64) -> Option<LeaseView> {
        match self.lease_of(kind, subject) {
            Some(lease) => if lease.live(now) {
                Some(lease)
            } else {
                None
            },
            None => None,
        }
    }

    /// No slot on the probe path in front of slot `i`'s lease is empty, so a
    /// probe for its subject reaches it.
    pub open spec fn reachable(self, i: int) -> bool {
        self.slots[i] matches SlotView::Occupied(lease) ==> {
            let home = self.home(lease.subject_kind, lease.subject);
            forall|offset: int|
                0 <= offset < distance(home, i, self.capacity()) ==> !(#[trigger] self.slots[probe(
                    home,
                    offset,
                    self.capacity(),
                )] is Empty)
        }
    }

    /// What every operation keeps: no subject has two slots, every lease is
    /// reachable, fits its slot, and carries an identifier minted here.
    pub open spec fn consistent(self) -> bool {
        &&& self.capacity() == state::CONTEST_STATE_CAPACITY
        &&& self.next_claim <= id::COUNTER_SPAN
        &&& forall|i: int, j: int|
            0 <= i < j < self.capacity() && self.slots[i] is Occupied && self.slots[j] is Occupied
                ==> !(#[trigger] self.slots[i]->Occupied_0).is_for(
                (#[trigger] self.slots[j]->Occupied_0).subject_kind,
                self.slots[j]->Occupied_0.subject,
            )
        &&& forall|i: int| 0 <= i < self.capacity() ==> #[trigger] self.reachable(i)
        &&& forall|i: int|
            0 <= i < self.capacity() && self.slots[i] is Occupied ==> {
                let lease = #[trigger] self.slots[i]->Occupied_0;
                &&& lease.claim_id.spec_kind() == state::CONTEST_STATE_KIND
                &&& lease.claim_id.spec_counter() < self.next_claim
                &&& lease.subject.len() + lease.owner.len() <= state::CONTEST_STATE_PAYLOAD_MAX
            }
    }

    /// The offset at which the probe of a claim ends.
    pub open spec fn claim_end(self, kind: u8, subject: Seq<u8>, now: u64) -> int {
        first_offset(
            self.slots,
            self.home(kind, subject),
            |slot: SlotView| slot.ends_claim(kind, subject, now),
            0,
        )
    }

    /// The offset of the first slot on the probe path that a claim may use.
    pub open spec fn first_free(self, kind: u8, subject: Seq<u8>, now: u64) -> int {
        first_offset(
            self.slots,
            self.home(kind, subject),
            |slot: SlotView| slot.free(now),
            0,
        )
    }

    /// The table after the first `count` slots of a probe path were relieved of
    /// leases that have run out.
    pub open spec fn swept(self, home: int, now: u64, count: int) -> TableView {
        TableView {
            next_claim: self.next_claim,
            slots: Seq::new(
                self.slots.len(),
                |i: int|
                    if distance(home, i, self.capacity()) < count && self.slots[i].expired(now) {
                        SlotView::Tombstone
                    } else {
                        self.slots[i]
                    },
            ),
        }
    }

    /// The table after the probe of a claim.
    pub open spec fn probed(self, kind: u8, subject: Seq<u8>, now: u64) -> TableView {
        self.swept(self.home(kind, subject), now, self.claim_end(kind, subject, now))
    }

    /// The lease that a claim asks for.
    pub open spec fn requested(self, request: ClaimRequest) -> LeaseView {
        LeaseView {
            claim_id: NetId64::minted(
                state::CONTEST_STATE_KIND,
                request.node,
                self.next_claim as nat,
            ),
            subject_kind: request.kind,
            subject: request.subject,
            owner: request.owner,
            claimed_at_ms: request.claimed_at_ms,
            expires_at_ms: request.expires_at_ms,
        }
    }

    /// Whether the probe of a claim finds the subject taken.
    pub open spec fn taken(self, kind: u8, subject: Seq<u8>, now: u64) -> bool {
        let end = self.claim_end(kind, subject, now);
        end < self.capacity() && self.slots[probe(
            self.home(kind, subject),
            end,
            self.capacity(),
        )] is Occupied
    }

    /// The answer to a claim.
    pub open spec fn claim_outcome(self, request: ClaimRequest) -> Result<ClaimView, Error> {
        let now = request.claimed_at_ms;
        if self.taken(request.kind, request.subject, now) {
            Ok(
                ClaimView::Occupied(
                    self.slots[probe(
                        self.home(request.kind, request.subject),
                        self.claim_end(request.kind, request.subject, now),
                        self.capacity(),
                    )]->Occupied_0,
                ),
            )
        } else if self.next_claim >= id::COUNTER_SPAN {
            Err(Error::ContestIdExhausted)
        } else if request.expires_at_ms <= now {
            Ok(ClaimView::BornExpired(self.requested(request)))
        } else if self.first_free(request.kind, request.subject, now) >= self.capacity() {
            Err(Error::ContestStateFull { capacity: state::CONTEST_STATE_CAPACITY })
        } else {
            Ok(ClaimView::Claimed(self.requested(request)))
        }
    }

    /// The table after a claim. Leases found expired on the way are dropped; a
    /// claim counter is spent unless the subject was taken or none was left; a
    /// granted lease goes to the first usable slot.
    pub open spec fn after_claim(self, request: ClaimRequest) -> TableView {
        let now = request.claimed_at_ms;
        let probed = self.probed(request.kind, request.subject, now);
        if self.taken(request.kind, request.subject, now) || self.next_claim >= id::COUNTER_SPAN {
            probed
        } else {
            let counted = TableView { next_claim: (self.next_claim + 1) as u64, ..probed };
            match self.claim_outcome(request) {
                Ok(ClaimView::Claimed(lease)) => TableView {
                    slots: counted.slots.update(
                        probe(
                            self.home(request.kind, request.subject),
                            self.first_free(request.kind, request.subject, now),
                            self.capacity(),
                        ),
                        SlotView::Occupied(lease),
                    ),
                    ..counted
                },
                _ => counted,
            }
        }
    }

    /// The lease after a renewal to `expires_at_ms`: the same tenure, never
    /// shortened. Nothing where the tenure has ended.
    pub open spec fn renewed(
        self,
        kind: u8,
        subject: Seq<u8>,
        claim_id: NetId64,
        expires_at_ms: u64,
        now: u64,
    ) -> Option<LeaseView> {
        match self.holder_of(kind, subject, now) {
            Some(lease) => if lease.claim_id == claim_id {
                Some(
                    LeaseView {
                        expires_at_ms: if lease.expires_at_ms > expires_at_ms {
                            lease.expires_at_ms
                        } else {
                            expires_at_ms
                        },
                        ..lease
                    },
                )
            } else {
                None
            },
            None => None,
        }
    }

    /// The table with the slot of a subject's lease replaced.
    pub open spec fn with_slot(self, kind: u8, subject: Seq<u8>, slot: SlotView) -> TableView {
        match self.find(kind, subject) {
            Some(at) => TableView { slots: self.slots.update(at, slot), ..self },
            None => self,
        }
    }

    /// The table after a renewal.
    pub open spec fn after_renew(
        self,
        kind: u8,
        subject: Seq<u8>,
        claim_id: NetId64,
        expires_at_ms: u64,
        now: u64,
    ) -> TableView {
        match self.renewed(kind, subject, claim_id, expires_at_ms, now) {
            Some(lease) => self.with_slot(kind, subject, SlotView::Occupied(lease)),
            None => self,
        }
    }

    /// The table after a release: only the tenure that is named ends.
    pub open spec fn after_release(self, kind: u8, subject: Seq<u8>, claim_id: NetId64) -> TableView {
        match self.lease_of(kind, subject) {
            Some(lease) => if lease.claim_id == claim_id {
                self.with_slot(kind, subject, SlotView::Tombstone)
            } else {
                self
            },
            None => self,
        }
    }
}

/// A first offset is where the predicate first holds.
pub proof fn lemma_first_offset(
    slots: Seq<SlotView>,
    home: int,
    pred: spec_fn(SlotView) -> bool,
    from: int,
)
    requires
        0 <= from <= slots.len(),
    ensures
        from <= first_offset(slots, home, pred, from) <= slots.len(),
        first_offset(slots, home, pred, from) < slots.len() ==> pred(
            slots[probe(home, first_offset(slots, home, pred, from), slots.len() as int)],
        ),
        forall|o: int|
            from <= o < first_offset(slots, home, pred, from) ==> !pred(
                #[trigger] slots[probe(home, o, slots.len() as int)],
            ),
    decreases slots.len() - from,
{
    if from < slots.len() && !pred(slots[probe(home, from, slots.len() as int)]) {
        lemma_first_offset(slots, home, pred, from + 1);
    }
}

/// An offset up to which the predicate fails and at which it holds, or which is
/// the end, is the first offset.
pub proof fn lemma_is_first_offset(
    slots: Seq<SlotView>,
    home: int,
    pred: spec_fn(SlotView) -> bool,
    from: int,
    at: int,
)
    requires
        0 <= from <= at <= slots.len(),
        at < slots.len() ==> pred(slots[probe(home, at, slots.len() as int)]),
        forall|o: int|
            from <= o < at ==> !pred(#[trigger] slots[probe(home, o, slots.len() as int)]),
    ensures
        first_offset(slots, home, pred, from) == at,
    decreases at - from,
{
    if from < at {
        assert(!pred(slots[probe(home, from, slots.len() as int)]));
        lemma_is_first_offset(slots, home, pred, from + 1, at);
    }
}

/// A probe finds a subject's lease in a slot that holds it.
pub proof fn lemma_find(table: TableView, kind: u8, subject: Seq<u8>)
    requires
        table.capacity() > 0,
    ensures
        table.find(kind, subject) matches Some(at) ==> table.holds_at(at, kind, subject),
{
    let home = table.home(kind, subject);
    lemma_first_offset(
        table.slots,
        home,
        |slot: SlotView| slot.ends_find(kind, subject),
        0,
    );
}

/// A subject has one lease at most, and a probe finds it: a slot that holds it is the
/// one that is found.
pub proof fn lemma_lease_at(table: TableView, i: int, kind: u8, subject: Seq<u8>)
    requires
        table.consistent(),
        table.holds_at(i, kind, subject),
    ensures
        table.find(kind, subject) == Some(i),
        table.lease_of(kind, subject) == Some(table.slots[i]->Occupied_0),
{
    let home = table.home(kind, subject);
    let pred = |slot: SlotView| slot.ends_find(kind, subject);
    let d = distance(home, i, table.capacity());
    assert(probe(home, d, table.capacity()) == i);
    assert(table.reachable(i));
    assert forall|o: int| 0 <= o < d implies !pred(
        #[trigger] table.slots[probe(home, o, table.slots.len() as int)],
    ) by {
        let j = probe(home, o, table.capacity());
        assert(!(table.slots[j] is Empty));
        if table.slots[j].holds(kind, subject) {
            if i < j {
                assert(!table.slots[i]->Occupied_0.is_for(
                    table.slots[j]->Occupied_0.subject_kind,
                    table.slots[j]->Occupied_0.subject,
                ));
            } else {
                assert(!table.slots[j]->Occupied_0.is_for(
                    table.slots[i]->Occupied_0.subject_kind,
                    table.slots[i]->Occupied_0.subject,
                ));
            }
        }
    }
    lemma_is_first_offset(table.slots, home, pred, 0, d);
}

/// Dropping expired leases on a probe path keeps the table consistent.
pub proof fn lemma_swept_consistent(table: TableView, home: int, now: u64, count: int)
    requires
        table.consistent(),
    ensures
        table.swept(home, now, count).consistent(),
{
    let after = table.swept(home, now, count);
    assert forall|i: int| 0 <= i < after.capacity() implies #[trigger] after.reachable(i) by {
        assert(table.reachable(i));
        if let SlotView::Occupied(lease) = after.slots[i] {
            let home = after.home(lease.subject_kind, lease.subject);
            assert(after.slots[i] == table.slots[i]);
            assert forall|offset: int|
                0 <= offset < distance(home, i, after.capacity()) implies !(
            #[trigger] after.slots[probe(home, offset, after.capacity())] is Empty) by {
                assert(!(table.slots[probe(home, offset, table.capacity())] is Empty));
            }
        }
    }
    assert forall|i: int, j: int|
        0 <= i < j < after.capacity() && after.slots[i] is Occupied
            && after.slots[j] is Occupied implies !(#[trigger] after.slots[i]->Occupied_0).is_for(
        (#[trigger] after.slots[j]->Occupied_0).subject_kind,
        after.slots[j]->Occupied_0.subject,
    ) by {
        assert(after.slots[i] == table.slots[i]);
        assert(after.slots[j] == table.slots[j]);
        assert(!table.slots[i]->Occupied_0.is_for(
            table.slots[j]->Occupied_0.subject_kind,
            table.slots[j]->Occupied_0.subject,
        ));
    }
    assert forall|i: int| 0 <= i < after.capacity() && after.slots[i] is Occupied implies {
        let lease = #[trigger] after.slots[i]->Occupied_0;
        &&& lease.claim_id.spec_kind() == state::CONTEST_STATE_KIND
        &&& lease.claim_id.spec_counter() < after.next_claim
        &&& lease.subject.len() + lease.owner.len() <= state::CONTEST_STATE_PAYLOAD_MAX
    } by {
        assert(after.slots[i] == table.slots[i]);
        assert(table.slots[i]->Occupied_0 == after.slots[i]->Occupied_0);
    }
}

/// After the probe of a claim that did not find the subject taken, no slot holds
/// the subject.
pub proof fn lemma_probed_holds_nothing(table: TableView, kind: u8, subject: Seq<u8>, now: u64)
    requires
        table.consistent(),
        !table.taken(kind, subject, now),
    ensures
        forall|i: int| !(#[trigger] table.probed(kind, subject, now).holds_at(i, kind, subject)),
{
    let after = table.probed(kind, subject, now);
    let home = table.home(kind, subject);
    let end = table.claim_end(kind, subject, now);
    let pred = |slot: SlotView| slot.ends_claim(kind, subject, now);
    lemma_first_offset(table.slots, home, pred, 0);
    assert forall|i: int| !(#[trigger] after.holds_at(i, kind, subject)) by {
        if after.holds_at(i, kind, subject) {
            let d = distance(home, i, table.capacity());
            assert(probe(home, d, table.capacity()) == i);
            assert(after.slots[i] == table.slots[i]);
            if d < end {
                assert(!pred(table.slots[probe(home, d, table.capacity())]));
                assert(table.slots[i].expired(now));
                assert(false);
            } else {
                assert(pred(table.slots[probe(home, end, table.capacity())]));
                assert(table.slots[probe(home, end, table.capacity())] is Empty);
                assert(table.reachable(i));
                assert(false);
            }
        }
    }
}

/// Putting a lease into the first usable slot of its probe path keeps the table
/// consistent.
pub proof fn lemma_insert_consistent(table: TableView, lease: LeaseView, offset: int)
    requires
        table.consistent(),
        table.next_claim < id::COUNTER_SPAN,
        0 <= offset < table.capacity(),
        forall|o: int|
            0 <= o < offset ==> !(#[trigger] table.slots[probe(
                table.home(lease.subject_kind, lease.subject),
                o,
                table.capacity(),
            )] is Empty),
        forall|i: int| !(#[trigger] table.holds_at(i, lease.subject_kind, lease.subject)),
        lease.claim_id.spec_kind() == state::CONTEST_STATE_KIND,
        lease.claim_id.spec_counter() == table.next_claim,
        lease.subject.len() + lease.owner.len() <= state::CONTEST_STATE_PAYLOAD_MAX,
    ensures
        (TableView {
            next_claim: (table.next_claim + 1) as u64,
            slots: table.slots.update(
                probe(
                    table.home(lease.subject_kind, lease.subject),
                    offset,
                    table.capacity(),
                ),
                SlotView::Occupied(lease),
            ),
        }).consistent(),
{
    let home = table.home(lease.subject_kind, lease.subject);
    let at = probe(home, offset, table.capacity());
    let after = TableView {
        next_claim: (table.next_claim + 1) as u64,
        slots: table.slots.update(at, SlotView::Occupied(lease)),
    };
    assert(0 <= home < table.capacity());
    assert forall|i: int| 0 <= i < after.capacity() implies #[trigger] after.reachable(i) by {
        assert(table.reachable(i));
        if let SlotView::Occupied(held) = after.slots[i] {
            let start = after.home(held.subject_kind, held.subject);
            assert forall|o: int|
                0 <= o < distance(start, i, after.capacity()) implies !(
            #[trigger] after.slots[probe(start, o, after.capacity())] is Empty) by {
                if i == at {
                    assert(!(table.slots[probe(home, o, table.capacity())] is Empty));
                } else {
                    assert(!(table.slots[probe(start, o, table.capacity())] is Empty));
                }
            }
        }
    }
    assert forall|i: int, j: int|
        0 <= i < j < after.capacity() && after.slots[i] is Occupied
            && after.slots[j] is Occupied implies !(#[trigger] after.slots[i]->Occupied_0).is_for(
        (#[trigger] after.slots[j]->Occupied_0).subject_kind,
        after.slots[j]->Occupied_0.subject,
    ) by {
        if i == at {
            assert(!table.holds_at(j, lease.subject_kind, lease.subject));
        } else if j == at {
            assert(!table.holds_at(i, lease.subject_kind, lease.subject));
        } else {
            assert(!table.slots[i]->Occupied_0.is_for(
                table.slots[j]->Occupied_0.subject_kind,
                table.slots[j]->Occupied_0.subject,
            ));
        }
    }
    assert forall|i: int| 0 <= i < after.capacity() && after.slots[i] is Occupied implies {
        let held = #[trigger] after.slots[i]->Occupied_0;
        &&& held.claim_id.spec_kind() == state::CONTEST_STATE_KIND
        &&& held.claim_id.spec_counter() < after.next_claim
        &&& held.subject.len() + held.owner.len() <= state::CONTEST_STATE_PAYLOAD_MAX
    } by {
        if i != at {
            assert(table.slots[i]->Occupied_0 == after.slots[i]->Occupied_0);
        }
    }
}

/// A claim keeps the table consistent.
pub proof fn lemma_claim_consistent(table: TableView, request: ClaimRequest)
    requires
        table.consistent(),
        request.subject.len() + request.owner.len() <= state::CONTEST_STATE_PAYLOAD_MAX,
    ensures
        table.after_claim(request).consistent(),
        table.probed(request.kind, request.subject, request.claimed_at_ms).consistent(),
{
    let now = request.claimed_at_ms;
    let kind = request.kind;
    let subject = request.subject;
    let home = table.home(kind, subject);
    let end = table.claim_end(kind, subject, now);
    let probed = table.probed(kind, subject, now);
    lemma_swept_consistent(table, home, now, end);
    id::lemma_minted_fields(state::CONTEST_STATE_KIND, request.node, table.next_claim as nat);
    if !table.taken(kind, subject, now) && table.next_claim < id::COUNTER_SPAN {
        vstd::arithmetic::div_mod::lemma_small_mod(
            table.next_claim as nat,
            id::COUNTER_SPAN as nat,
        );
        let counted = TableView { next_claim: (table.next_claim + 1) as u64, ..probed };
        assert(counted.consistent()) by {
            assert forall|i: int| 0 <= i < counted.capacity() implies #[trigger] counted.reachable(
                i,
            ) by {
                assert(probed.reachable(i));
            }
            assert forall|i: int, j: int|
                0 <= i < j < counted.capacity() && counted.slots[i] is Occupied
                    && counted.slots[j] is Occupied implies !(
            #[trigger] counted.slots[i]->Occupied_0).is_for(
                (#[trigger] counted.slots[j]->Occupied_0).subject_kind,
                counted.slots[j]->Occupied_0.subject,
            ) by {
                assert(!probed.slots[i]->Occupied_0.is_for(
                    probed.slots[j]->Occupied_0.subject_kind,
                    probed.slots[j]->Occupied_0.subject,
                ));
            }
        }
        if let Ok(ClaimView::Claimed(lease)) = table.claim_outcome(request) {
            let pred = |slot: SlotView| slot.free(now);
            let free = table.first_free(kind, subject, now);
            lemma_first_offset(table.slots, home, pred, 0);
            lemma_probed_holds_nothing(table, kind, subject, now);
            assert forall|o: int| 0 <= o < free implies !(#[trigger] probed.slots[probe(
                home,
                o,
                table.capacity(),
            )] is Empty) by {
                assert(!pred(table.slots[probe(home, o, table.capacity())]));
            }
            lemma_insert_consistent(probed, lease, free);
        }
    }
}

/// Replacing the slot of a subject's lease by a tombstone, or by a lease of the same
/// subject that fits and carries a minted identifier, keeps the table consistent.
pub proof fn lemma_with_slot_consistent(table: TableView, kind: u8, subject: Seq<u8>, slot: SlotView)
    requires
        table.consistent(),
        slot matches SlotView::Occupied(lease) ==> {
            &&& lease.is_for(kind, subject)
            &&& lease.claim_id.spec_kind() == state::CONTEST_STATE_KIND
            &&& lease.claim_id.spec_counter() < table.next_claim
            &&& lease.subject.len() + lease.owner.len() <= state::CONTEST_STATE_PAYLOAD_MAX
        },
        !(slot is Empty),
    ensures
        table.with_slot(kind, subject, slot).consistent(),
{
    let after = table.with_slot(kind, subject, slot);
    lemma_find(table, kind, subject);
    assert forall|i: int| 0 <= i < after.capacity() implies #[trigger] after.reachable(i) by {
        assert(table.reachable(i));
        if let SlotView::Occupied(held) = after.slots[i] {
            let home = after.home(held.subject_kind, held.subject);
            assert(table.slots[i] is Occupied);
            assert(table.slots[i]->Occupied_0.is_for(held.subject_kind, held.subject));
            assert forall|offset: int|
                0 <= offset < distance(home, i, after.capacity()) implies !(
            #[trigger] after.slots[probe(home, offset, after.capacity())] is Empty) by {
                assert(!(table.slots[probe(home, offset, table.capacity())] is Empty));
            }
        }
    }
    assert forall|i: int, j: int|
        0 <= i < j < after.capacity() && after.slots[i] is Occupied
            && after.slots[j] is Occupied implies !(#[trigger] after.slots[i]->Occupied_0).is_for(
        (#[trigger] after.slots[j]->Occupied_0).subject_kind,
        after.slots[j]->Occupied_0.subject,
    ) by {
        assert(!table.slots[i]->Occupied_0.is_for(
            table.slots[j]->Occupied_0.subject_kind,
            table.slots[j]->Occupied_0.subject,
        ));
    }
    assert forall|i: int| 0 <= i < after.capacity() && after.slots[i] is Occupied implies {
        let held = #[trigger] after.slots[i]->Occupied_0;
        &&& held.claim_id.spec_kind() == state::CONTEST_STATE_KIND
        &&& held.claim_id.spec_counter() < after.next_claim
        &&& held.subject.len() + held.owner.len() <= state::CONTEST_STATE_PAYLOAD_MAX
    } by {
        if table.find(kind, subject) != Some(i) {
            assert(table.slots[i]->Occupied_0 == after.slots[i]->Occupied_0);
        }
    }
}

/// A renewal keeps the table consistent.
pub proof fn lemma_renew_consistent(
    table: TableView,
    kind: u8,
    subject: Seq<u8>,
    claim_id: NetId64,
    expires_at_ms: u64,
    now: u64,
)
    requires
        table.consistent(),
    ensures
        table.after_renew(kind, subject, claim_id, expires_at_ms, now).consistent(),
{
    if let Some(lease) = table.renewed(kind, subject, claim_id, expires_at_ms, now) {
        lemma_find(table, kind, subject);
        let i = table.find(kind, subject)->Some_0;
        let held = table.slots[i]->Occupied_0;
        assert(held.subject.len() + held.owner.len() <= state::CONTEST_STATE_PAYLOAD_MAX);
        lemma_with_slot_consistent(table, kind, subject, SlotView::Occupied(lease));
    }
}

/// A release keeps the table consistent.
pub proof fn lemma_release_consistent(
    table: TableView,
    kind: u8,
    subject: Seq<u8>,
    claim_id: NetId64,
)
    requires
        table.consistent(),
    ensures
        table.after_release(kind, subject, claim_id).consistent(),
{
    lemma_with_slot_consistent(table, kind, subject, SlotView::Tombstone);
}

} // verus!
