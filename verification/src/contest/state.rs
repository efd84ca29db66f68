//! Fixed-capacity current-state storage for contests.
//!
//! Leases are state, not history. Each subject occupies at most one
//! open-addressed table slot; a renewal updates that slot and a release
//! tombstones it.

use vstd::prelude::*;

use super::model;
use super::model::{ClaimRequest, ClaimView, LeaseView, SlotView, TableView};
use crate::buf;
use crate::error::{Error, Result};
use crate::id;
use crate::id::NetId64;
use crate::node::NodeId;

verus! {

/// Fleet-scoped kind reserved for the contest state table. It must not be
/// reused by a ring.
pub const CONTEST_STATE_KIND: u8 = 222;

/// Maximum number of simultaneously resident subjects.
pub const CONTEST_STATE_CAPACITY: usize = 1024;

/// Maximum combined bytes of a subject label and an owner label.
pub const CONTEST_STATE_PAYLOAD_MAX: usize = 235;

const CONTEST_COUNTER_MAX: u64 = 0xFF_FFFF_FFFF;

const SLOT_EMPTY: u8 = 0;

const SLOT_OCCUPIED: u8 = 1;

const SLOT_TOMBSTONE: u8 = 2;

const FNV_OFFSET_BASIS: u64 = 0xcbf2_9ce4_8422_2325;

const FNV_PRIME: u64 = 0x0000_0100_0000_01b3;

/// One step of the FNV-1a hash.
pub closed spec fn hash_step(hash: u64, byte: u8) -> u64 {
    (hash ^ (byte as u64)).wrapping_mul(FNV_PRIME)
}

/// The FNV-1a hash of a byte string, continued from `hash`.
pub closed spec fn hash_bytes(hash: u64, bytes: Seq<u8>) -> u64
    decreases bytes.len(),
{
    if bytes.len() == 0 {
        hash
    } else {
        hash_step(hash_bytes(hash, bytes.drop_last()), bytes.last())
    }
}

/// The hash of a subject: its kind, then its label.
pub closed spec fn subject_hash_of(kind: u8, subject: Seq<u8>) -> u64 {
    hash_bytes(hash_step(FNV_OFFSET_BASIS, kind), subject)
}

fn subject_hash(subject_kind: u8, subject: &[u8]) -> (hash: u64)
    ensures
        hash == subject_hash_of(subject_kind, subject@),
{
    let mut hash: u64 = FNV_OFFSET_BASIS;
    hash = (hash ^ (subject_kind as u64)).wrapping_mul(FNV_PRIME);
    let ghost start = hash;
    let mut i: usize = 0;
    while i < subject.len()
        invariant
            i <= subject.len(),
            hash == hash_bytes(start, subject@.take(i as int)),
        decreases subject.len() - i,
    {
        hash = (hash ^ (subject[i] as u64)).wrapping_mul(FNV_PRIME);
        i = i + 1;
        proof {
            assert(subject@.take(i as int).drop_last() =~= subject@.take(i - 1));
        }
    }
    proof {
        assert(subject@.take(i as int) =~= subject@);
    }
    hash
}

fn home_slot(hash: u64, capacity: usize) -> (home: usize)
    requires
        capacity > 0,
    ensures
        home == hash as int % capacity as int,
        home < capacity,
{
    (hash % (capacity as u64)) as usize
}

fn probe_index(home: usize, offset: usize, capacity: usize) -> (index: usize)
    requires
        home < capacity,
        offset < capacity,
    ensures
        index == model::probe(home as int, offset as int, capacity as int),
        index < capacity,
{
    if offset < capacity - home {
        home + offset
    } else {
        offset - (capacity - home)
    }
}

/// One tenure of one subject.
#[derive(Clone, Debug, PartialEq, Eq)]
pub struct LeaseState {
    pub claim_id: NetId64,
    pub subject_kind: u8,
    pub subject: Vec<u8>,
    pub owner: Vec<u8>,
    pub claimed_at_ms: u64,
    pub expires_at_ms: u64,
}

impl View for LeaseState {
    type V = LeaseView;

    open spec fn view(&self) -> LeaseView {
        LeaseView {
            claim_id: self.claim_id,
            subject_kind: self.subject_kind,
            subject: self.subject@,
            owner: self.owner@,
            claimed_at_ms: self.claimed_at_ms,
            expires_at_ms: self.expires_at_ms,
        }
    }
}

/// What a claim gives back.
pub enum StateClaim {
    /// The subject is now held by this lease.
    Claimed(LeaseState),
    /// The subject is held by this other lease.
    Occupied(LeaseState),
    /// The requested lease had run out before it began; nothing is held.
    BornExpired(LeaseState),
}

impl View for StateClaim {
    type V = ClaimView;

    open spec fn view(&self) -> ClaimView {
        match self {
            StateClaim::Claimed(lease) => ClaimView::Claimed(lease@),
            StateClaim::Occupied(lease) => ClaimView::Occupied(lease@),
            StateClaim::BornExpired(lease) => ClaimView::BornExpired(lease@),
        }
    }
}

/// The answer to a claim, as a value.
pub open spec fn claim_result(result: Result<StateClaim>) -> std::result::Result<ClaimView, Error> {
    match result {
        Ok(claim) => Ok(claim@),
        Err(error) => Err(error),
    }
}

/// Whether two labels fit into one slot.
pub open spec fn labels_fit(subject: Seq<u8>, owner: Seq<u8>) -> bool {
    subject.len() + owner.len() <= CONTEST_STATE_PAYLOAD_MAX
}

/// The refusal of labels that do not fit into one slot.
pub open spec fn label_error(subject: Seq<u8>, owner: Seq<u8>) -> Error {
    Error::ContestEntryTooLarge {
        subject_len: subject.len() as usize,
        owner_len: owner.len() as usize,
        max_payload: CONTEST_STATE_PAYLOAD_MAX,
    }
}

fn validate_labels(subject: &[u8], owner: &[u8]) -> (checked: Result<()>)
    ensures
        checked == (if labels_fit(subject@, owner@) {
            Ok(())
        } else {
            Err(label_error(subject@, owner@))
        }),
{
    if subject.len() > u16::MAX as usize || owner.len() > u16::MAX as usize
        || subject.len().saturating_add(owner.len()) > CONTEST_STATE_PAYLOAD_MAX {
        return Err(
            Error::ContestEntryTooLarge {
                subject_len: subject.len(),
                owner_len: owner.len(),
                max_payload: CONTEST_STATE_PAYLOAD_MAX,
            },
        );
    }
    Ok(())
}

fn overwrite(target: &mut Vec<u8>, at: usize, data: &[u8])
    requires
        at + data@.len() <= old(target)@.len(),
    ensures
        final(target)@.len() == old(target)@.len(),
        final(target)@.subrange(at as int, at + data@.len()) == data@,
        forall|j: int|
            0 <= j < old(target)@.len() && !(at <= j < at + data@.len()) ==> final(target)@[j]
                == old(target)@[j],
{
    let ghost before = target@;
    let total: usize = target.len();
    let mut i: usize = 0;
    while i < data.len()
        invariant
            i <= data.len(),
            at + data@.len() <= total,
            target@.len() == total,
            target@.len() == before.len(),
            forall|j: int| 0 <= j < i ==> target@[at + j] == data@[j],
            forall|j: int|
                0 <= j < before.len() && !(at <= j < at + i) ==> target@[j] == before[j],
        decreases data.len() - i,
    {
        target.set(at + i, data[i]);
        i = i + 1;
    }
    proof {
        assert(target@.subrange(at as int, at + data@.len()) =~= data@);
    }
}

/// One slot of the table: a state byte and the fields of a lease. The labels
/// stand one behind the other at the start of the payload. The fields may hold
/// anything: a lease whose subject label does not lie inside the payload, or does not
/// have the recorded hash, is found by no probe, and an owner label is cut where the
/// payload ends.
pub struct ContestStateSlot {
    pub state: u8,
    pub subject_kind: u8,
    pub subject_len: u16,
    pub owner_len: u16,
    pub subject_hash: u64,
    pub claim_id: u64,
    pub claimed_at_ms: u64,
    pub expires_at_ms: u64,
    pub payload: Vec<u8>,
}

impl View for ContestStateSlot {
    type V = SlotView;

    closed spec fn view(&self) -> SlotView {
        let subject = self.payload@.subrange(0, self.subject_len as int);
        if self.state == SLOT_EMPTY {
            SlotView::Empty
        } else if self.state == SLOT_TOMBSTONE {
            SlotView::Tombstone
        } else if self.state != SLOT_OCCUPIED {
            SlotView::Blocked { until: None }
        } else if self.subject_len > CONTEST_STATE_PAYLOAD_MAX || self.subject_hash
            != subject_hash_of(self.subject_kind, subject) {
            SlotView::Blocked { until: Some(self.expires_at_ms) }
        } else {
            SlotView::Occupied(
                LeaseView {
                    claim_id: NetId64::of_raw(self.claim_id),
                    subject_kind: self.subject_kind,
                    subject,
                    owner: self.payload@.subrange(self.subject_len as int, self.labels_end()),
                    claimed_at_ms: self.claimed_at_ms,
                    expires_at_ms: self.expires_at_ms,
                },
            )
        }
    }
}

impl ContestStateSlot {
    /// The payload has its size. What the other fields hold is left open.
    pub open spec fn wf(&self) -> bool {
        self.payload@.len() == CONTEST_STATE_PAYLOAD_MAX
    }

    /// Where the owner label ends inside the payload.
    spec fn labels_end(&self) -> int {
        if self.subject_len + self.owner_len > CONTEST_STATE_PAYLOAD_MAX {
            CONTEST_STATE_PAYLOAD_MAX as int
        } else {
            self.subject_len + self.owner_len
        }
    }

    fn empty() -> (slot: ContestStateSlot)
        ensures
            slot.wf(),
            slot@ == SlotView::Empty,
    {
        let mut payload: Vec<u8> = Vec::with_capacity(CONTEST_STATE_PAYLOAD_MAX);
        let mut i: usize = 0;
        while i < CONTEST_STATE_PAYLOAD_MAX
            invariant
                i <= CONTEST_STATE_PAYLOAD_MAX,
                payload@.len() == i,
            decreases CONTEST_STATE_PAYLOAD_MAX - i,
        {
            payload.push(0);
            i = i + 1;
        }
        ContestStateSlot {
            state: SLOT_EMPTY,
            subject_kind: 0,
            subject_len: 0,
            owner_len: 0,
            subject_hash: 0,
            claim_id: 0,
            claimed_at_ms: 0,
            expires_at_ms: 0,
            payload,
        }
    }

    fn subject_is(&self, subject: &[u8]) -> (same: bool)
        requires
            self.wf(),
            self.subject_len <= CONTEST_STATE_PAYLOAD_MAX,
        ensures
            same == (self.payload@.subrange(0, self.subject_len as int) == subject@),
    {
        let label = buf::copy_range(self.payload.as_slice(), 0, self.subject_len as usize);
        buf::same_bytes(label.as_slice(), subject)
    }

    fn matches(&self, hash: u64, subject_kind: u8, subject: &[u8]) -> (same: bool)
        requires
            self.wf(),
            hash == subject_hash_of(subject_kind, subject@),
        ensures
            same == self@.holds(subject_kind, subject@),
    {
        self.state == SLOT_OCCUPIED && self.subject_hash == hash && self.subject_kind
            == subject_kind && self.subject_len as usize <= CONTEST_STATE_PAYLOAD_MAX
            && self.subject_is(subject)
    }

    fn holder(&self) -> (lease: LeaseState)
        requires
            self.wf(),
            self@ is Occupied,
        ensures
            SlotView::Occupied(lease@) == self@,
            labels_fit(lease.subject@, lease.owner@),
    {
        let subject_end: usize = self.subject_len as usize;
        let labels: usize = subject_end + self.owner_len as usize;
        let owner_end: usize = if labels > CONTEST_STATE_PAYLOAD_MAX {
            CONTEST_STATE_PAYLOAD_MAX
        } else {
            labels
        };
        LeaseState {
            claim_id: NetId64::from_raw(self.claim_id),
            subject_kind: self.subject_kind,
            subject: buf::copy_range(self.payload.as_slice(), 0, subject_end),
            owner: buf::copy_range(self.payload.as_slice(), subject_end, owner_end),
            claimed_at_ms: self.claimed_at_ms,
            expires_at_ms: self.expires_at_ms,
        }
    }

    /// Record a lease. The slot is a tombstone while its fields are rewritten,
    /// so an interrupted rewrite leaves no partially committed lease.
    fn write(&mut self, hash: u64, holder: &LeaseState)
        requires
            old(self).wf(),
            labels_fit(holder.subject@, holder.owner@),
            hash == subject_hash_of(holder.subject_kind, holder.subject@),
        ensures
            final(self).wf(),
            final(self)@ == SlotView::Occupied(holder@),
    {
        self.state = SLOT_TOMBSTONE;
        self.subject_kind = holder.subject_kind;
        self.subject_len = holder.subject.len() as u16;
        self.owner_len = holder.owner.len() as u16;
        self.subject_hash = hash;
        self.claim_id = holder.claim_id.raw();
        self.claimed_at_ms = holder.claimed_at_ms;
        self.expires_at_ms = holder.expires_at_ms;
        let mut i: usize = 0;
        while i < CONTEST_STATE_PAYLOAD_MAX
            invariant
                i <= CONTEST_STATE_PAYLOAD_MAX,
                self.payload@.len() == CONTEST_STATE_PAYLOAD_MAX,
                self.subject_kind == holder.subject_kind,
                self.subject_len == holder.subject@.len(),
                self.owner_len == holder.owner@.len(),
                self.subject_hash == hash,
                self.claim_id == holder.claim_id.spec_raw(),
                self.claimed_at_ms == holder.claimed_at_ms,
                self.expires_at_ms == holder.expires_at_ms,
            decreases CONTEST_STATE_PAYLOAD_MAX - i,
        {
            self.payload.set(i, 0);
            i = i + 1;
        }
        overwrite(&mut self.payload, 0, holder.subject.as_slice());
        let ghost labelled = self.payload@;
        overwrite(&mut self.payload, holder.subject.len(), holder.owner.as_slice());
        self.state = SLOT_OCCUPIED;
        proof {
            let len = holder.subject@.len() as int;
            assert(labelled.subrange(0, len) == holder.subject@);
            assert(self.payload@.subrange(0, len) =~= labelled.subrange(0, len));
            id::lemma_raw_determines(NetId64::of_raw(self.claim_id), holder.claim_id);
        }
    }

    fn tombstone(&mut self)
        requires
            old(self).wf(),
        ensures
            final(self).wf(),
            final(self)@ == SlotView::Tombstone,
    {
        self.state = SLOT_TOMBSTONE;
    }

    fn clear(&mut self)
        requires
            old(self).wf(),
        ensures
            final(self).wf(),
            final(self)@ == SlotView::Empty,
    {
        self.state = SLOT_EMPTY;
    }
}

/// The values of the slots.
pub open spec fn slot_views(slots: Seq<ContestStateSlot>) -> Seq<SlotView> {
    slots.map_values(|slot: ContestStateSlot| slot@)
}

/// The contest state of one fleet.
pub struct ContestStateStore {
    next_claim: u64,
    slots: Vec<ContestStateSlot>,
}

impl View for ContestStateStore {
    type V = TableView;

    closed spec fn view(&self) -> TableView {
        TableView { next_claim: self.next_claim, slots: slot_views(self.slots@) }
    }
}

impl ContestStateStore {
    /// All slots are there, each with a whole payload. What they hold is left open: a
    /// table that no operation has broken is also [`TableView::consistent`].
    pub closed spec fn wf(&self) -> bool {
        &&& self.slots@.len() == CONTEST_STATE_CAPACITY
        &&& forall|i: int| 0 <= i < self.slots@.len() ==> (#[trigger] self.slots@[i]).wf()
    }

    /// A table that nobody has used.
    pub fn in_memory() -> (store: ContestStateStore)
        ensures
            store.wf(),
            store@ == TableView::fresh(),
            store@.consistent(),
    {
        let mut slots: Vec<ContestStateSlot> = Vec::with_capacity(CONTEST_STATE_CAPACITY);
        let mut i: usize = 0;
        while i < CONTEST_STATE_CAPACITY
            invariant
                i <= CONTEST_STATE_CAPACITY,
                slots@.len() == i,
                forall|j: int|
                    0 <= j < i ==> (#[trigger] slots@[j]).wf() && slots@[j]@ == SlotView::Empty,
            decreases CONTEST_STATE_CAPACITY - i,
        {
            slots.push(ContestStateSlot::empty());
            i = i + 1;
        }
        let store = ContestStateStore { next_claim: 0, slots };
        proof {
            assert(store@.slots =~= TableView::fresh().slots);
        }
        store
    }

    /// Try to take a subject for a tenure from `claimed_at_ms` to
    /// `expires_at_ms`.
    pub fn claim(
        &mut self,
        node_id: NodeId,
        subject_kind: u8,
        subject: &[u8],
        owner: &[u8],
        claimed_at_ms: u64,
        expires_at_ms: u64,
    ) -> (result: Result<StateClaim>)
        requires
            old(self).wf(),
        ensures
            final(self).wf(),
            !labels_fit(subject@, owner@) ==> final(self)@ == old(self)@ && result == Err::<
                StateClaim,
                Error,
            >(label_error(subject@, owner@)),
            labels_fit(subject@, owner@) ==> {
                let request = ClaimRequest {
                    node: node_id.spec_get(),
                    kind: subject_kind,
                    subject: subject@,
                    owner: owner@,
                    claimed_at_ms,
                    expires_at_ms,
                };
                &&& final(self)@ == old(self)@.after_claim(request)
                &&& claim_result(result) == old(self)@.claim_outcome(request)
            },
            old(self)@.consistent() ==> final(self)@.consistent(),
    {
        match validate_labels(subject, owner) {
            Ok(_) => {},
            Err(error) => {
                return Err(error);
            },
        }
        let ghost request = ClaimRequest {
            node: node_id.spec_get(),
            kind: subject_kind,
            subject: subject@,
            owner: owner@,
            claimed_at_ms,
            expires_at_ms,
        };
        let hash: u64 = subject_hash(subject_kind, subject);
        let capacity: usize = self.slots.len();
        let home: usize = home_slot(hash, capacity);
        let mut insertion: Option<usize> = None;
        let mut offset: usize = 0;
        let mut ended = false;
        let ghost before = self@;
        let ghost ends = |slot: SlotView| slot.ends_claim(subject_kind, subject@, claimed_at_ms);
        let ghost frees = |slot: SlotView| slot.free(claimed_at_ms);
        let ghost mut free: int = capacity as int;
        proof {
            assert(before.swept(home as int, claimed_at_ms, 0).slots =~= before.slots);
            if before.consistent() {
                model::lemma_claim_consistent(before, request);
            }
        }
        while offset < capacity && !ended
            invariant
                capacity == CONTEST_STATE_CAPACITY,
                capacity == self.slots@.len(),
                home < capacity,
                offset <= capacity,
                forall|i: int| 0 <= i < self.slots@.len() ==> (#[trigger] self.slots@[i]).wf(),
                hash == subject_hash_of(subject_kind, subject@),
                before.slots.len() == capacity,
                before.consistent() ==> before.after_claim(request).consistent(),
                home == before.home(subject_kind, subject@),
                self@ == before.swept(home as int, claimed_at_ms, offset as int),
                ends == (|slot: SlotView| slot.ends_claim(subject_kind, subject@, claimed_at_ms)),
                frees == (|slot: SlotView| slot.free(claimed_at_ms)),
                ended ==> offset < capacity && ends(
                    before.slots[model::probe(home as int, offset as int, capacity as int)],
                ),
                ended ==> before.slots[model::probe(
                    home as int,
                    offset as int,
                    capacity as int,
                )] is Empty,
                forall|o: int|
                    0 <= o < offset ==> !ends(
                        #[trigger] before.slots[model::probe(home as int, o, capacity as int)],
                    ),
                insertion is None ==> !ended && free == capacity && forall|o: int|
                    0 <= o < offset ==> !frees(
                        #[trigger] before.slots[model::probe(home as int, o, capacity as int)],
                    ),
                insertion matches Some(index) ==> {
                    &&& 0 <= free < capacity
                    &&& free < offset || (ended && free == offset)
                    &&& index == model::probe(home as int, free, capacity as int)
                    &&& frees(before.slots[index as int])
                    &&& forall|o: int|
                        0 <= o < free ==> !frees(
                            #[trigger] before.slots[model::probe(home as int, o, capacity as int)],
                        )
                },
                request == (ClaimRequest {
                    node: node_id.spec_get(),
                    kind: subject_kind,
                    subject: subject@,
                    owner: owner@,
                    claimed_at_ms,
                    expires_at_ms,
                }),
                old(self)@ == before,
                labels_fit(subject@, owner@),
            decreases capacity - offset, (if ended {
                0int
            } else {
                1int
            }),
        {
            let index: usize = probe_index(home, offset, capacity);
            let ghost at = index as int;
            proof {
                assert(model::distance(home as int, at, capacity as int) == offset);
                assert(self@.slots[at] == before.slots[at]);
                assert(self.slots@[at]@ == self@.slots[at]);
            }
            let state: u8 = self.slots[index].state;
            if state == SLOT_EMPTY {
                if insertion.is_none() {
                    insertion = Some(index);
                    proof {
                        free = offset as int;
                    }
                }
                ended = true;
            } else if state == SLOT_TOMBSTONE {
                if insertion.is_none() {
                    insertion = Some(index);
                    proof {
                        free = offset as int;
                    }
                }
                proof {
                    lemma_swept_step(before, home as int, claimed_at_ms, offset as int);
                }
                offset = offset + 1;
            } else if state != SLOT_OCCUPIED {
                proof {
                    lemma_swept_step(before, home as int, claimed_at_ms, offset as int);
                }
                offset = offset + 1;
            } else if self.slots[index].expires_at_ms <= claimed_at_ms {
                let ghost slots_before = self.slots@;
                self.slots[index].tombstone();
                proof {
                    lemma_swept_step(before, home as int, claimed_at_ms, offset as int);
                    assert(self@.slots =~= slot_views(slots_before).update(
                        at,
                        SlotView::Tombstone,
                    ));
                }
                if insertion.is_none() {
                    insertion = Some(index);
                    proof {
                        free = offset as int;
                    }
                }
                offset = offset + 1;
            } else if self.slots[index].matches(hash, subject_kind, subject) {
                proof {
                    model::lemma_is_first_offset(
                        before.slots,
                        home as int,
                        ends,
                        0,
                        offset as int,
                    );
                }
                return Ok(StateClaim::Occupied(self.slots[index].holder()));
            } else {
                proof {
                    lemma_swept_step(before, home as int, claimed_at_ms, offset as int);
                }
                offset = offset + 1;
            }
        }
        proof {
            model::lemma_is_first_offset(before.slots, home as int, ends, 0, offset as int);
            model::lemma_is_first_offset(before.slots, home as int, frees, 0, free);
            assert(self@ == before.probed(subject_kind, subject@, claimed_at_ms));
        }
        if self.next_claim > CONTEST_COUNTER_MAX {
            return Err(Error::ContestIdExhausted);
        }
        let counter: u64 = self.next_claim;
        self.next_claim = counter + 1;
        let holder = LeaseState {
            claim_id: NetId64::make(CONTEST_STATE_KIND, node_id.get(), counter),
            subject_kind,
            subject: buf::copy_range(subject, 0, subject.len()),
            owner: buf::copy_range(owner, 0, owner.len()),
            claimed_at_ms,
            expires_at_ms,
        };
        proof {
            assert(holder.subject@ =~= subject@);
            assert(holder.owner@ =~= owner@);
            assert(holder@ == before.requested(request));
        }
        if expires_at_ms <= claimed_at_ms {
            return Ok(StateClaim::BornExpired(holder));
        }
        match insertion {
            Some(index) => {
                let ghost slots_before = self.slots@;
                self.slots[index].write(hash, &holder);
                proof {
                    assert(slot_views(self.slots@) =~= slot_views(slots_before).update(
                        index as int,
                        SlotView::Occupied(holder@),
                    ));
                }
                Ok(StateClaim::Claimed(holder))
            },
            None => Err(Error::ContestStateFull { capacity }),
        }
    }

    fn find_slot(&self, hash: u64, subject_kind: u8, subject: &[u8]) -> (found: Option<usize>)
        requires
            self.wf(),
            hash == subject_hash_of(subject_kind, subject@),
        ensures
            self@.find(subject_kind, subject@) == (match found {
                Some(index) => Some(index as int),
                None => None,
            }),
            found matches Some(index) ==> self@.holds_at(index as int, subject_kind, subject@),
    {
        let capacity: usize = self.slots.len();
        let home: usize = home_slot(hash, capacity);
        let ghost ends = |slot: SlotView| slot.ends_find(subject_kind, subject@);
        let mut offset: usize = 0;
        while offset < capacity
            invariant
                self.wf(),
                capacity == self.slots@.len(),
                home < capacity,
                offset <= capacity,
                hash == subject_hash_of(subject_kind, subject@),
                home == self@.home(subject_kind, subject@),
                ends == (|slot: SlotView| slot.ends_find(subject_kind, subject@)),
                forall|o: int|
                    0 <= o < offset ==> !ends(
                        #[trigger] self@.slots[model::probe(home as int, o, capacity as int)],
                    ),
            decreases capacity - offset,
        {
            let index: usize = probe_index(home, offset, capacity);
            proof {
                assert(self.slots@[index as int]@ == self@.slots[index as int]);
            }
            if self.slots[index].state == SLOT_EMPTY {
                proof {
                    model::lemma_is_first_offset(
                        self@.slots,
                        home as int,
                        ends,
                        0,
                        offset as int,
                    );
                }
                return None;
            }
            if self.slots[index].matches(hash, subject_kind, subject) {
                proof {
                    model::lemma_is_first_offset(
                        self@.slots,
                        home as int,
                        ends,
                        0,
                        offset as int,
                    );
                }
                return Some(index);
            }
            offset = offset + 1;
        }
        proof {
            model::lemma_is_first_offset(self@.slots, home as int, ends, 0, offset as int);
        }
        None
    }

    /// Extend the tenure `claim_id` of a subject to `expires_at_ms`.
    pub fn renew(
        &mut self,
        subject_kind: u8,
        subject: &[u8],
        claim_id: NetId64,
        expires_at_ms: u64,
        now_ms: u64,
    ) -> (result: Result<LeaseState>)
        requires
            old(self).wf(),
        ensures
            final(self).wf(),
            !labels_fit(subject@, seq![]) ==> final(self)@ == old(self)@ && result == Err::<
                LeaseState,
                Error,
            >(label_error(subject@, seq![])),
            labels_fit(subject@, seq![]) ==> {
                &&& final(self)@ == old(self)@.after_renew(
                    subject_kind,
                    subject@,
                    claim_id,
                    expires_at_ms,
                    now_ms,
                )
                &&& match old(self)@.renewed(
                    subject_kind,
                    subject@,
                    claim_id,
                    expires_at_ms,
                    now_ms,
                ) {
                    Some(lease) => result is Ok && result->Ok_0@ == lease,
                    None => result == Err::<LeaseState, Error>(
                        Error::ContestLeaseLost { claim_id },
                    ),
                }
            },
            old(self)@.consistent() ==> final(self)@.consistent(),
    {
        let no_owner: Vec<u8> = Vec::new();
        match validate_labels(subject, no_owner.as_slice()) {
            Ok(_) => {},
            Err(error) => {
                return Err(error);
            },
        }
        let hash: u64 = subject_hash(subject_kind, subject);
        let ghost before = self@;
        proof {
            if before.consistent() {
                model::lemma_renew_consistent(
                    before,
                    subject_kind,
                    subject@,
                    claim_id,
                    expires_at_ms,
                    now_ms,
                );
            }
        }
        match self.find_slot(hash, subject_kind, subject) {
            Some(index) => {
                proof {
                    assert(self.slots@[index as int]@ == before.slots[index as int]);
                }
                let mut holder = self.slots[index].holder();
                if holder.claim_id == claim_id && holder.expires_at_ms > now_ms {
                    if expires_at_ms > holder.expires_at_ms {
                        holder.expires_at_ms = expires_at_ms;
                    }
                    let ghost slots_before = self.slots@;
                    self.slots[index].write(hash, &holder);
                    proof {
                        assert(slot_views(self.slots@) =~= slot_views(slots_before).update(
                            index as int,
                            SlotView::Occupied(holder@),
                        ));
                    }
                    return Ok(holder);
                }
            },
            None => {},
        }
        Err(Error::ContestLeaseLost { claim_id })
    }

    /// End the tenure `claim_id` of a subject, if it is the recorded one.
    pub fn release(&mut self, subject_kind: u8, subject: &[u8], claim_id: NetId64) -> (result:
        Result<()>)
        requires
            old(self).wf(),
        ensures
            final(self).wf(),
            !labels_fit(subject@, seq![]) ==> final(self)@ == old(self)@ && result == Err::<
                (),
                Error,
            >(label_error(subject@, seq![])),
            labels_fit(subject@, seq![]) ==> {
                &&& final(self)@ == old(self)@.after_release(subject_kind, subject@, claim_id)
                &&& result == Ok::<(), Error>(())
            },
            old(self)@.consistent() ==> final(self)@.consistent(),
    {
        let no_owner: Vec<u8> = Vec::new();
        match validate_labels(subject, no_owner.as_slice()) {
            Ok(_) => {},
            Err(error) => {
                return Err(error);
            },
        }
        let hash: u64 = subject_hash(subject_kind, subject);
        let ghost before = self@;
        proof {
            if before.consistent() {
                model::lemma_release_consistent(before, subject_kind, subject@, claim_id);
            }
        }
        match self.find_slot(hash, subject_kind, subject) {
            Some(index) => {
                proof {
                    assert(self.slots@[index as int]@ == before.slots[index as int]);
                    id::lemma_raw_kept(self.slots@[index as int].claim_id);
                }
                if self.slots[index].claim_id == claim_id.raw() {
                    let ghost slots_before = self.slots@;
                    self.slots[index].tombstone();
                    proof {
                        assert(slot_views(self.slots@) =~= slot_views(slots_before).update(
                            index as int,
                            SlotView::Tombstone,
                        ));
                    }
                }
            },
            None => {},
        }
        Ok(())
    }

    /// Forget every lease and start the claim counter again.
    pub fn reset(&mut self)
        requires
            old(self).wf(),
        ensures
            final(self).wf(),
            final(self)@ == TableView::fresh(),
            final(self)@.consistent(),
    {
        let mut i: usize = 0;
        while i < self.slots.len()
            invariant
                i <= self.slots@.len(),
                self.slots@.len() == CONTEST_STATE_CAPACITY,
                forall|j: int| 0 <= j < self.slots@.len() ==> (#[trigger] self.slots@[j]).wf(),
                forall|j: int| 0 <= j < i ==> (#[trigger] self.slots@[j])@ == SlotView::Empty,
            decreases self.slots@.len() - i,
        {
            self.slots[i].clear();
            i = i + 1;
        }
        self.next_claim = 0;
        proof {
            assert(self@.slots =~= TableView::fresh().slots);
        }
    }
}

/// The table that a claim counter and a list of slots stand for.
pub open spec fn image_view(next_claim: u64, slots: Seq<ContestStateSlot>) -> TableView {
    TableView { next_claim, slots: slot_views(slots) }
}

/// Whether a list of slots has the shape of a table: all slots, each with a whole
/// payload.
pub open spec fn image_wf(slots: Seq<ContestStateSlot>) -> bool {
    &&& slots.len() == CONTEST_STATE_CAPACITY
    &&& forall|i: int| 0 <= i < slots.len() ==> (#[trigger] slots[i]).wf()
}

impl ContestStateStore {
    /// Rebuild a table from what a segment holds. Any counter is a counter, and any
    /// slots of the right number and size are a table, also what a process left in the
    /// middle of a change.
    pub fn restore(next_claim: u64, slots: Vec<ContestStateSlot>) -> (store: Option<
        ContestStateStore,
    >)
        ensures
            match store {
                Some(store) => {
                    &&& store.wf()
                    &&& image_wf(slots@)
                    &&& store@ == image_view(next_claim, slots@)
                },
                None => !image_wf(slots@),
            },
    {
        if slots.len() != CONTEST_STATE_CAPACITY {
            return None;
        }
        let mut i: usize = 0;
        while i < slots.len()
            invariant
                i <= slots@.len(),
                slots@.len() == CONTEST_STATE_CAPACITY,
                forall|j: int| 0 <= j < i ==> (#[trigger] slots@[j]).wf(),
            decreases slots@.len() - i,
        {
            if slots[i].payload.len() != CONTEST_STATE_PAYLOAD_MAX {
                return None;
            }
            i = i + 1;
        }
        Some(ContestStateStore { next_claim, slots })
    }

    /// Take the table apart, to be written to a segment.
    pub fn into_parts(self) -> (parts: (u64, Vec<ContestStateSlot>))
        requires
            self.wf(),
        ensures
            image_wf(parts.1@),
            image_view(parts.0, parts.1@) == self@,
    {
        (self.next_claim, self.slots)
    }
}

/// Sweeping one more slot of a probe path drops that slot's lease where it has
/// run out, and nothing else.
proof fn lemma_swept_step(table: TableView, home: int, now: u64, count: int)
    requires
        0 <= home < table.capacity(),
        0 <= count < table.capacity(),
    ensures
        ({
            let at = model::probe(home, count, table.capacity());
            table.swept(home, now, count + 1) == TableView {
                slots: if table.slots[at].expired(now) {
                    table.swept(home, now, count).slots.update(at, SlotView::Tombstone)
                } else {
                    table.swept(home, now, count).slots
                },
                ..table
            }
        }),
{
    let at = model::probe(home, count, table.capacity());
    let slots = if table.slots[at].expired(now) {
        table.swept(home, now, count).slots.update(at, SlotView::Tombstone)
    } else {
        table.swept(home, now, count).slots
    };
    assert forall|i: int| 0 <= i < table.capacity() implies #[trigger] table.swept(
        home,
        now,
        count + 1,
    ).slots[i] == slots[i] by {
        if model::distance(home, i, table.capacity()) == count {
            assert(i == at);
        }
    }
    assert(table.swept(home, now, count + 1).slots =~= slots);
}

/// The hash of a subject takes its kind first and then its label, byte by byte: each
/// byte is mixed in by an exclusive or and a multiplication, as FNV-1a has it.
pub proof fn law_a_subject_hash_takes_byte_after_byte(kind: u8, subject: Seq<u8>, byte: u8)
    ensures
        subject_hash_of(kind, Seq::<u8>::empty()) == (0xcbf2_9ce4_8422_2325u64 ^ (
        kind as u64)).wrapping_mul(0x0000_0100_0000_01b3u64),
        subject_hash_of(kind, subject.push(byte)) == (subject_hash_of(kind, subject) ^ (
        byte as u64)).wrapping_mul(0x0000_0100_0000_01b3u64),
{
    assert(subject.push(byte).drop_last() =~= subject);
}

/// What a slot shows: an unused one, one given back, or a lease with its fields and its
/// two labels one behind the other. A lease whose subject label cannot be found by its
/// hash only blocks the slot, until its expiry; a slot in no known state blocks it for
/// good.
pub proof fn law_a_slot_shows_its_fields(slot: ContestStateSlot)
    requires
        slot.payload@.len() == 235,
    ensures
        slot.state == 0 <==> slot@ is Empty,
        slot.state == 2 <==> slot@ is Tombstone,
        slot.state > 2 <==> slot@ == (SlotView::Blocked { until: None }),
        slot.state == 1 ==> ({
            let found = slot.subject_len <= 235 && slot.subject_hash == subject_hash_of(
                slot.subject_kind,
                slot.payload@.take(slot.subject_len as int),
            );
            let end: int = if slot.subject_len + slot.owner_len <= 235 {
                slot.subject_len + slot.owner_len
            } else {
                235
            };
            &&& !found ==> slot@ == (SlotView::Blocked { until: Some(slot.expires_at_ms) })
            &&& found ==> slot@ == SlotView::Occupied(
                LeaseView {
                    claim_id: NetId64::of_raw(slot.claim_id),
                    subject_kind: slot.subject_kind,
                    subject: slot.payload@.take(slot.subject_len as int),
                    owner: slot.payload@.subrange(slot.subject_len as int, end),
                    claimed_at_ms: slot.claimed_at_ms,
                    expires_at_ms: slot.expires_at_ms,
                },
            )
        }),
{
    if slot.subject_len <= 235 {
        assert(slot.payload@.take(slot.subject_len as int) =~= slot.payload@.subrange(
            0,
            slot.subject_len as int,
        ));
    }
}

/// A list of slots is shown slot by slot, in the same order.
pub proof fn law_slots_are_shown_in_place(slots: Seq<ContestStateSlot>, i: int)
    ensures
        slot_views(slots).len() == slots.len(),
        0 <= i < slots.len() ==> slot_views(slots)[i] == slots[i]@,
{
}

} // verus!
