//! Bounded process-local cache.
//!
//! Entries lie in order of use, the least recently used first. A deleted or
//! expired key, and one whose bytes were gone before they could be copied, keeps a
//! missing marker with its revision, so that an older mutation that arrives late
//! cannot bring stale bytes back. Evicting an entry raises the floor: of keys
//! without an entry, only mutations above the floor are accepted.

use bytes::Bytes;
use vstd::prelude::*;

use super::layout::CacheLayout;
use super::protocol::{CacheMutation, CacheRevision, MutationView};
use super::transport;
use super::transport::CacheTransport;
use crate::buf;
use crate::clock;
use crate::fleet::Fleet;

verus! {

/// A value that the local cache serves.
#[derive(Clone, Debug, PartialEq, Eq)]
pub struct CacheEntry {
    pub value: Bytes,
    pub revision: CacheRevision,
    pub expires_at_ms: Option<u64>,
}

/// Outcome of a local read.
#[derive(Clone, Debug, PartialEq, Eq)]
pub enum CacheRead {
    /// The newest value known of the key.
    Hit(CacheEntry),
    /// Nothing is held of the key: recover it from the backing store.
    Miss,
    /// Mutations were missed, so nothing held can be trusted.
    ResyncRequired,
}

/// A local read, as values.
pub enum ReadView {
    Hit { value: Seq<u8>, revision: CacheRevision, expires_at_ms: Option<u64> },
    Miss,
    ResyncRequired,
}

impl View for CacheRead {
    type V = ReadView;

    open spec fn view(&self) -> ReadView {
        match self {
            CacheRead::Hit(entry) => ReadView::Hit {
                value: buf::bytes_contents(entry.value),
                revision: entry.revision,
                expires_at_ms: entry.expires_at_ms,
            },
            CacheRead::Miss => ReadView::Miss,
            CacheRead::ResyncRequired => ReadView::ResyncRequired,
        }
    }
}

/// What became of a mutation.
#[derive(Clone, Debug, PartialEq, Eq)]
pub enum ApplyOutcome {
    /// It changed the local cache.
    Applied,
    /// Something as new was known already, or nothing held can be trusted.
    Ignored,
    /// It was the newest, but its bytes had been overwritten.
    PayloadUnavailable { key: Bytes },
}

/// What became of a mutation, as values.
pub enum OutcomeView {
    Applied,
    Ignored,
    PayloadUnavailable { key: Seq<u8> },
}

impl View for ApplyOutcome {
    type V = OutcomeView;

    open spec fn view(&self) -> OutcomeView {
        match self {
            ApplyOutcome::Applied => OutcomeView::Applied,
            ApplyOutcome::Ignored => OutcomeView::Ignored,
            ApplyOutcome::PayloadUnavailable { key } => OutcomeView::PayloadUnavailable {
                key: buf::bytes_contents(*key),
            },
        }
    }
}

/// The bytes of a value and its expiry; nothing for a missing marker.
pub type Held = Option<(Seq<u8>, Option<u64>)>;

/// What the local cache knows of one key, as values.
#[verifier::ext_equal]
pub struct EntryView {
    pub key: Seq<u8>,
    pub revision: CacheRevision,
    pub held: Held,
}

struct LocalEntry {
    key: Bytes,
    revision: CacheRevision,
    held: Option<(Bytes, Option<u64>)>,
}

impl View for LocalEntry {
    type V = EntryView;

    closed spec fn view(&self) -> EntryView {
        EntryView {
            key: buf::bytes_contents(self.key),
            revision: self.revision,
            held: match self.held {
                Some((value, expires_at_ms)) => Some((buf::bytes_contents(value), expires_at_ms)),
                None => None,
            },
        }
    }
}

/// The entry of a key.
pub open spec fn place_of(entries: Seq<EntryView>, key: Seq<u8>) -> Option<int>
    decreases entries.len(),
{
    if entries.len() == 0 {
        None
    } else if entries.last().key == key {
        Some(entries.len() - 1)
    } else {
        place_of(entries.drop_last(), key)
    }
}

/// The entries that a reset does not make stale.
pub open spec fn survivors(entries: Seq<EntryView>, reset: CacheRevision) -> Seq<EntryView>
    decreases entries.len(),
{
    if entries.len() == 0 {
        seq![]
    } else if reset.newer(entries.last().revision) {
        survivors(entries.drop_last(), reset)
    } else {
        survivors(entries.drop_last(), reset).push(entries.last())
    }
}

/// Whether a value that runs out at `expires_at_ms` is still good at `now_ms`.
pub open spec fn unexpired(expires_at_ms: Option<u64>, now_ms: u64) -> bool {
    match expires_at_ms {
        Some(at) => at > now_ms,
        None => true,
    }
}

/// The local cache as a value.
#[verifier::ext_equal]
pub struct LocalView {
    pub capacity: nat,
    pub floor: u64,
    pub coherent: bool,
    pub entries: Seq<EntryView>,
}

impl LocalView {
    /// An empty coherent cache.
    pub open spec fn fresh(capacity: nat, floor: u64) -> LocalView {
        LocalView { capacity, floor, coherent: true, entries: seq![] }
    }

    /// What every operation keeps: the bound, and one entry per key.
    pub open spec fn consistent(self) -> bool {
        &&& self.capacity > 0
        &&& self.entries.len() <= self.capacity
        &&& !self.coherent ==> self.entries.len() == 0
        &&& forall|i: int, j: int|
            0 <= i < j < self.entries.len() ==> (#[trigger] self.entries[i]).key != (
            #[trigger] self.entries[j]).key
    }

    /// Whether a mutation of a key is news.
    pub open spec fn accepts(self, key: Seq<u8>, revision: CacheRevision) -> bool {
        self.coherent && match place_of(self.entries, key) {
            Some(at) => revision.newer(self.entries[at].revision),
            None => revision.sequence > self.floor,
        }
    }

    /// The cache with the entry of a key moved to the recent end.
    pub open spec fn touched(self, entry: EntryView) -> LocalView {
        LocalView {
            entries: self.entries.remove(place_of(self.entries, entry.key)->0).push(entry),
            ..self
        }
    }

    /// The cache with a new entry, which may push out the least recently used one.
    pub open spec fn placed(self, entry: EntryView) -> LocalView {
        if place_of(self.entries, entry.key) is Some {
            self.touched(entry)
        } else if self.entries.len() < self.capacity {
            LocalView { entries: self.entries.push(entry), ..self }
        } else {
            LocalView {
                floor: if self.entries[0].revision.sequence > self.floor {
                    self.entries[0].revision.sequence
                } else {
                    self.floor
                },
                entries: self.entries.remove(0).push(entry),
                ..self
            }
        }
    }

    /// The cache after a mutation of one key.
    pub open spec fn settled_key(self, key: Seq<u8>, revision: CacheRevision, held: Held) -> LocalView {
        if self.accepts(key, revision) {
            self.placed(EntryView { key, revision, held })
        } else {
            self
        }
    }

    /// Whether a reset is news.
    pub open spec fn accepts_reset(self, revision: CacheRevision) -> bool {
        self.coherent && (revision.sequence > self.floor || survivors(self.entries, revision).len()
            < self.entries.len())
    }

    /// The cache after a reset.
    pub open spec fn after_reset(self, revision: CacheRevision) -> LocalView {
        if self.coherent {
            LocalView {
                floor: if revision.sequence > self.floor {
                    revision.sequence
                } else {
                    self.floor
                },
                entries: survivors(self.entries, revision),
                ..self
            }
        } else {
            self
        }
    }

    /// The cache after a mutation, given what its payload reference stands for.
    pub open spec fn applied(self, mutation: MutationView, value: Option<Seq<u8>>) -> LocalView {
        match mutation {
            MutationView::Put { key, revision, expires_at_ms, .. } => self.settled_key(
                key,
                revision,
                match value {
                    Some(value) => Some((value, expires_at_ms)),
                    None => None,
                },
            ),
            MutationView::Delete { key, revision } => self.settled_key(key, revision, None),
            MutationView::Reset { revision } => self.after_reset(revision),
        }
    }

    /// What becomes of a mutation.
    pub open spec fn outcome(self, mutation: MutationView, value: Option<Seq<u8>>) -> OutcomeView {
        match mutation {
            MutationView::Put { key, revision, .. } => if !self.accepts(key, revision) {
                OutcomeView::Ignored
            } else if value is Some {
                OutcomeView::Applied
            } else {
                OutcomeView::PayloadUnavailable { key }
            },
            MutationView::Delete { key, revision } => if self.accepts(key, revision) {
                OutcomeView::Applied
            } else {
                OutcomeView::Ignored
            },
            MutationView::Reset { revision } => if self.accepts_reset(revision) {
                OutcomeView::Applied
            } else {
                OutcomeView::Ignored
            },
        }
    }

    /// What a read gives.
    pub open spec fn answer(self, key: Seq<u8>, now_ms: u64) -> ReadView {
        if !self.coherent {
            ReadView::ResyncRequired
        } else {
            match place_of(self.entries, key) {
                Some(at) => match self.entries[at].held {
                    Some((value, expires_at_ms)) => if unexpired(expires_at_ms, now_ms) {
                        ReadView::Hit { value, revision: self.entries[at].revision, expires_at_ms }
                    } else {
                        ReadView::Miss
                    },
                    None => ReadView::Miss,
                },
                None => ReadView::Miss,
            }
        }
    }

    /// The cache after a read: the entry is the most recent, and an expired value
    /// has become a missing marker.
    pub open spec fn after_read(self, key: Seq<u8>, now_ms: u64) -> LocalView {
        match place_of(self.entries, key) {
            Some(at) => self.touched(
                EntryView {
                    held: match self.entries[at].held {
                        Some((value, expires_at_ms)) => if unexpired(expires_at_ms, now_ms) {
                            Some((value, expires_at_ms))
                        } else {
                            None
                        },
                        None => None,
                    },
                    ..self.entries[at]
                },
            ),
            None => self,
        }
    }

    /// The cache after mutations were missed.
    pub open spec fn distrusted(self) -> LocalView {
        LocalView { coherent: false, entries: seq![], ..self }
    }
}

/// What the place of a key says of the entries.
pub proof fn lemma_place(entries: Seq<EntryView>, key: Seq<u8>)
    ensures
        match place_of(entries, key) {
            Some(at) => 0 <= at < entries.len() && entries[at].key == key,
            None => forall|i: int| 0 <= i < entries.len() ==> (#[trigger] entries[i]).key != key,
        },
    decreases entries.len(),
{
    if entries.len() > 0 && entries.last().key != key {
        lemma_place(entries.drop_last(), key);
        if place_of(entries, key) is None {
            assert forall|i: int| 0 <= i < entries.len() implies (#[trigger] entries[i]).key
                != key by {
                if i < entries.len() - 1 {
                    assert(entries.drop_last()[i] == entries[i]);
                }
            }
        }
    }
}

/// Leaving out an entry that does not survive changes nothing of the survivors.
proof fn lemma_survivors_skip(entries: Seq<EntryView>, reset: CacheRevision, at: int)
    requires
        0 <= at < entries.len(),
        reset.newer(entries[at].revision),
    ensures
        survivors(entries.remove(at), reset) == survivors(entries, reset),
    decreases entries.len(),
{
    if at == entries.len() - 1 {
        assert(entries.remove(at) =~= entries.drop_last());
    } else {
        lemma_survivors_skip(entries.drop_last(), reset, at);
        assert(entries.remove(at).drop_last() =~= entries.drop_last().remove(at));
        assert(entries.remove(at).last() == entries.last());
    }
}

/// Where every entry survives, the survivors are the entries.
proof fn lemma_survivors_all(entries: Seq<EntryView>, reset: CacheRevision)
    requires
        forall|i: int| 0 <= i < entries.len() ==> !reset.newer((#[trigger] entries[i]).revision),
    ensures
        survivors(entries, reset) == entries,
    decreases entries.len(),
{
    if entries.len() > 0 {
        let last = entries.len() - 1;
        assert(!reset.newer(entries[last].revision));
        assert forall|i: int| 0 <= i < entries.drop_last().len() implies !reset.newer(
            (#[trigger] entries.drop_last()[i]).revision,
        ) by {
            assert(entries.drop_last()[i] == entries[i]);
        }
        lemma_survivors_all(entries.drop_last(), reset);
        assert(entries.drop_last().push(entries.last()) =~= entries);
    }
}

/// Every survivor is one of the entries and is not older than the reset; every
/// entry that is not older survives.
pub proof fn lemma_survivors(entries: Seq<EntryView>, reset: CacheRevision)
    ensures
        survivors(entries, reset).len() <= entries.len(),
        forall|i: int|
            0 <= i < survivors(entries, reset).len() ==> entries.contains(
                #[trigger] survivors(entries, reset)[i],
            ) && !reset.newer(survivors(entries, reset)[i].revision),
        forall|i: int|
            0 <= i < entries.len() && !reset.newer((#[trigger] entries[i]).revision) ==> survivors(
                entries,
                reset,
            ).contains(entries[i]),
    decreases entries.len(),
{
    if entries.len() > 0 {
        let front = entries.drop_last();
        let last = entries.len() - 1;
        let kept = survivors(entries, reset);
        let front_kept = survivors(front, reset);
        lemma_survivors(front, reset);
        assert forall|i: int| 0 <= i < kept.len() implies entries.contains(#[trigger] kept[i])
            && !reset.newer(kept[i].revision) by {
            if i < front_kept.len() {
                assert(kept[i] == front_kept[i]);
                let at = choose|at: int| 0 <= at < front.len() && front[at] == front_kept[i];
                assert(entries[at] == kept[i]);
            } else {
                assert(entries[last] == kept[i]);
            }
        }
        assert forall|i: int|
            0 <= i < entries.len() && !reset.newer(
                (#[trigger] entries[i]).revision,
            ) implies kept.contains(entries[i]) by {
            if i < last {
                assert(front[i] == entries[i]);
                assert(front_kept.contains(front[i]));
                let at = choose|at: int|
                    0 <= at < front_kept.len() && front_kept[at] == front[i];
                assert(kept[at] == entries[i]);
            } else {
                assert(kept[kept.len() - 1] == entries[i]);
            }
        }
    }
}

/// Survivors keep one entry per key.
pub proof fn lemma_survivors_distinct(entries: Seq<EntryView>, reset: CacheRevision)
    requires
        forall|i: int, j: int|
            0 <= i < j < entries.len() ==> (#[trigger] entries[i]).key != (
            #[trigger] entries[j]).key,
    ensures
        forall|i: int, j: int|
            0 <= i < j < survivors(entries, reset).len() ==> (#[trigger] survivors(
                entries,
                reset,
            )[i]).key != (#[trigger] survivors(entries, reset)[j]).key,
    decreases entries.len(),
{
    if entries.len() > 0 {
        let front = entries.drop_last();
        let kept = survivors(entries, reset);
        let front_kept = survivors(front, reset);
        assert forall|i: int, j: int| 0 <= i < j < front.len() implies (#[trigger] front[i]).key
            != (#[trigger] front[j]).key by {
            assert(front[i] == entries[i]);
            assert(front[j] == entries[j]);
        }
        lemma_survivors_distinct(front, reset);
        lemma_survivors(front, reset);
        assert forall|i: int, j: int| 0 <= i < j < kept.len() implies (#[trigger] kept[i]).key != (
        #[trigger] kept[j]).key by {
            assert(kept[i] == front_kept[i]);
            if j < front_kept.len() {
                assert(kept[j] == front_kept[j]);
            } else {
                let last = entries.len() - 1;
                assert(kept[j] == entries[last]);
                let at = choose|at: int| 0 <= at < front.len() && front[at] == front_kept[i];
                assert(entries[at] == kept[i]);
            }
        }
    }
}

/// The operations keep the cache consistent.
pub proof fn lemma_placed_consistent(local: LocalView, entry: EntryView)
    requires
        local.consistent(),
        local.coherent,
    ensures
        local.placed(entry).consistent(),
{
    lemma_place(local.entries, entry.key);
    let after = local.placed(entry);
    assert forall|i: int, j: int| 0 <= i < j < after.entries.len() implies (
    #[trigger] after.entries[i]).key != (#[trigger] after.entries[j]).key by {
        match place_of(local.entries, entry.key) {
            Some(at) => {
                let from = if i < at {
                    i
                } else {
                    i + 1
                };
                let to = if j < at {
                    j
                } else {
                    j + 1
                };
                assert(after.entries[i] == local.entries[from]);
                if j < after.entries.len() - 1 {
                    assert(after.entries[j] == local.entries[to]);
                } else {
                    assert(local.entries[from].key != local.entries[at].key);
                }
            },
            None => {
                if local.entries.len() < local.capacity {
                    assert(after.entries[i] == local.entries[i]);
                    if j < local.entries.len() {
                        assert(after.entries[j] == local.entries[j]);
                    }
                } else {
                    assert(after.entries[i] == local.entries[i + 1]);
                    if j < after.entries.len() - 1 {
                        assert(after.entries[j] == local.entries[j + 1]);
                    }
                }
            },
        }
    }
}

/// Bounded process-local cache of one cache domain.
pub struct LocalCache {
    capacity: usize,
    floor: u64,
    coherent: bool,
    entries: Vec<LocalEntry>,
}

spec fn entry_views(entries: Seq<LocalEntry>) -> Seq<EntryView> {
    entries.map_values(|entry: LocalEntry| entry@)
}

impl View for LocalCache {
    type V = LocalView;

    closed spec fn view(&self) -> LocalView {
        LocalView {
            capacity: self.capacity as nat,
            floor: self.floor,
            coherent: self.coherent,
            entries: entry_views(self.entries@),
        }
    }
}

impl LocalCache {
    pub closed spec fn wf(&self) -> bool {
        self@.consistent()
    }

    /// What the representation says of the value.
    pub proof fn lemma_wf_consistent(&self)
        requires
            self.wf(),
        ensures
            self@.consistent(),
    {
    }

    /// An empty coherent cache of at most `capacity` entries.
    pub fn new(capacity: usize) -> (local: LocalCache)
        requires
            capacity > 0,
        ensures
            local.wf(),
            local@ == LocalView::fresh(capacity as nat, 0),
    {
        let local = LocalCache { capacity, floor: 0, coherent: true, entries: Vec::new() };
        proof {
            assert(entry_views(local.entries@) =~= seq![]);
        }
        local
    }

    /// Whether what is held can be trusted.
    pub fn is_coherent(&self) -> (yes: bool)
        ensures
            yes == self@.coherent,
    {
        self.coherent
    }

    /// Number of keys that the cache knows something of.
    pub fn len(&self) -> (len: usize)
        ensures
            len == self@.entries.len(),
    {
        self.entries.len()
    }

    /// The largest number of keys.
    pub fn capacity(&self) -> (capacity: usize)
        ensures
            capacity == self@.capacity,
    {
        self.capacity
    }

    fn place(&self, key: &[u8]) -> (at: Option<usize>)
        ensures
            match at {
                Some(at) => place_of(self@.entries, key@) == Some(at as int) && at
                    < self.entries@.len(),
                None => place_of(self@.entries, key@) is None,
            },
    {
        let ghost views = entry_views(self.entries@);
        let mut rest: usize = self.entries.len();
        proof {
            assert(views.take(rest as int) =~= views);
        }
        while rest > 0
            invariant
                rest <= self.entries@.len(),
                views == entry_views(self.entries@),
                views == self@.entries,
                place_of(views, key@) == place_of(views.take(rest as int), key@),
            decreases rest,
        {
            proof {
                assert(views.take(rest as int).last() == self.entries@[rest - 1]@);
                assert(views.take(rest as int).drop_last() =~= views.take(rest - 1));
            }
            rest = rest - 1;
            if buf::same_bytes(buf::bytes_as_slice(&self.entries[rest].key), key) {
                return Some(rest);
            }
        }
        None
    }

    fn accepts(&self, key: &[u8], revision: CacheRevision) -> (yes: bool)
        ensures
            yes == self@.accepts(key@, revision),
    {
        if !self.coherent {
            return false;
        }
        match self.place(key) {
            Some(at) => revision.is_newer_than(self.entries[at].revision),
            None => revision.sequence > self.floor,
        }
    }

    fn put_entry(&mut self, entry: LocalEntry)
        requires
            old(self).wf(),
            old(self)@.coherent,
        ensures
            final(self).wf(),
            final(self)@ == old(self)@.placed(entry@),
    {
        let ghost before = self@;
        let ghost added = entry@;
        proof {
            lemma_placed_consistent(before, added);
            lemma_place(before.entries, added.key);
        }
        match self.place(buf::bytes_as_slice(&entry.key)) {
            Some(at) => {
                let _ = self.entries.remove(at);
                self.entries.push(entry);
                proof {
                    assert(entry_views(self.entries@) =~= before.entries.remove(at as int).push(
                        added,
                    ));
                }
            },
            None => {
                if self.entries.len() >= self.capacity {
                    let evicted = self.entries.remove(0);
                    if evicted.revision.sequence > self.floor {
                        self.floor = evicted.revision.sequence;
                    }
                    self.entries.push(entry);
                    proof {
                        assert(before.entries[0] == evicted@);
                        assert(entry_views(self.entries@) =~= before.entries.remove(0).push(added));
                    }
                } else {
                    self.entries.push(entry);
                    proof {
                        assert(entry_views(self.entries@) =~= before.entries.push(added));
                    }
                }
            },
        }
    }

    /// Read a key now.
    pub fn read(&mut self, key: &[u8]) -> (read: CacheRead)
        requires
            old(self).wf(),
        ensures
            final(self).wf(),
            exists|now_ms: u64|
                read@ == #[trigger] old(self)@.answer(key@, now_ms) && final(self)@ == old(
                    self,
                )@.after_read(key@, now_ms),
    {
        let now_ms: u64 = clock::now_ms();
        self.read_at(key, now_ms)
    }

    /// [`LocalCache::read`] with an explicit clock.
    pub fn read_at(&mut self, key: &[u8], now_ms: u64) -> (read: CacheRead)
        requires
            old(self).wf(),
        ensures
            final(self).wf(),
            read@ == old(self)@.answer(key@, now_ms),
            final(self)@ == old(self)@.after_read(key@, now_ms),
    {
        if !self.coherent {
            return CacheRead::ResyncRequired;
        }
        let ghost before = self@;
        match self.place(key) {
            Some(at) => {
                let ghost entry = self.entries@[at as int]@;
                proof {
                    lemma_place(before.entries, key@);
                    assert(before.entries[at as int] == entry);
                }
                let found = self.entries.remove(at);
                let mut read = CacheRead::Miss;
                let held = match found.held {
                    Some((value, expires_at_ms)) => {
                        let good: bool = match expires_at_ms {
                            Some(deadline) => deadline > now_ms,
                            None => true,
                        };
                        if good {
                            read = CacheRead::Hit(
                                CacheEntry {
                                    value: value.clone(),
                                    revision: found.revision,
                                    expires_at_ms,
                                },
                            );
                            Some((value, expires_at_ms))
                        } else {
                            None
                        }
                    },
                    None => None,
                };
                let touched = LocalEntry { key: found.key, revision: found.revision, held };
                let ghost added = touched@;
                self.entries.push(touched);
                proof {
                    assert(entry_views(self.entries@) =~= before.entries.remove(at as int).push(
                        added,
                    ));
                    lemma_placed_consistent(before, added);
                    assert(self@ =~= before.after_read(key@, now_ms));
                }
                read
            },
            None => CacheRead::Miss,
        }
    }

    /// Hold a value that this process has just published.
    pub fn install_local(
        &mut self,
        key: &[u8],
        value: Bytes,
        revision: CacheRevision,
        expires_at_ms: Option<u64>,
    )
        requires
            old(self).wf(),
        ensures
            final(self).wf(),
            final(self)@ == old(self)@.settled_key(
                key@,
                revision,
                Some((buf::bytes_contents(value), expires_at_ms)),
            ),
    {
        if self.accepts(key, revision) {
            self.put_entry(
                LocalEntry {
                    key: buf::bytes_from_slice(key),
                    revision,
                    held: Some((value, expires_at_ms)),
                },
            );
        }
    }

    /// Remember that a key is missing as of a revision.
    pub fn install_missing(&mut self, key: &[u8], revision: CacheRevision)
        requires
            old(self).wf(),
        ensures
            final(self).wf(),
            final(self)@ == old(self)@.settled_key(key@, revision, None),
    {
        if self.accepts(key, revision) {
            self.put_entry(LocalEntry { key: buf::bytes_from_slice(key), revision, held: None });
        }
    }

    /// Drop every key that is not newer than a reset.
    pub fn reset_local(&mut self, revision: CacheRevision) -> (news: bool)
        requires
            old(self).wf(),
        ensures
            final(self).wf(),
            final(self)@ == old(self)@.after_reset(revision),
            news == old(self)@.accepts_reset(revision),
    {
        if !self.coherent {
            return false;
        }
        let ghost before = self@;
        let mut news: bool = revision.sequence > self.floor;
        let mut at: usize = 0;
        while at < self.entries.len()
            invariant
                at <= self.entries@.len(),
                self.capacity == before.capacity,
                self.floor == before.floor,
                self.coherent,
                self.entries@.len() <= before.entries.len(),
                survivors(entry_views(self.entries@), revision) == survivors(
                    before.entries,
                    revision,
                ),
                forall|i: int|
                    0 <= i < at ==> !revision.newer((#[trigger] self.entries@[i]).revision),
                news == (revision.sequence > before.floor || self.entries@.len()
                    < before.entries.len()),
            decreases self.entries@.len() - at,
        {
            if revision.is_newer_than(self.entries[at].revision) {
                let ghost views = entry_views(self.entries@);
                let _ = self.entries.remove(at);
                news = true;
                proof {
                    lemma_survivors_skip(views, revision, at as int);
                    assert(entry_views(self.entries@) =~= views.remove(at as int));
                }
            } else {
                at = at + 1;
            }
        }
        if revision.sequence > self.floor {
            self.floor = revision.sequence;
        }
        proof {
            lemma_survivors_all(entry_views(self.entries@), revision);
            lemma_survivors_distinct(before.entries, revision);
            lemma_survivors(before.entries, revision);
        }
        news
    }

    /// Distrust everything held: mutations were missed.
    pub fn require_resync(&mut self)
        requires
            old(self).wf(),
        ensures
            final(self).wf(),
            final(self)@ == old(self)@.distrusted(),
    {
        self.entries = Vec::new();
        self.coherent = false;
        proof {
            assert(entry_views(self.entries@) =~= seq![]);
        }
    }

    /// Start again, empty and coherent, above every mutation allocated so far.
    pub fn recover_from_backing(&mut self, revision_floor: u64)
        requires
            old(self).wf(),
        ensures
            final(self).wf(),
            final(self)@ == LocalView::fresh(old(self)@.capacity, revision_floor),
    {
        self.entries = Vec::new();
        self.floor = revision_floor;
        self.coherent = true;
        proof {
            assert(entry_views(self.entries@) =~= seq![]);
        }
    }

    /// Start again with a new generation of rings.
    pub fn reset_after_transport_reset(&mut self)
        requires
            old(self).wf(),
        ensures
            final(self).wf(),
            final(self)@ == LocalView::fresh(old(self)@.capacity, 0),
    {
        self.recover_from_backing(0);
    }

    /// Apply a mutation; the bytes of a put are read only where it is news.
    pub fn apply<L: CacheLayout>(
        &mut self,
        transport: &CacheTransport<L>,
        fleet: &Fleet,
        mutation: &CacheMutation,
    ) -> (outcome: ApplyOutcome)
        requires
            old(self).wf(),
            fleet.wf(),
        ensures
            final(self).wf(),
            ({
                let value = transport::value_of::<L>(fleet@, mutation@);
                &&& final(self)@ == old(self)@.applied(mutation@, value)
                &&& outcome@ == old(self)@.outcome(mutation@, value)
            }),
    {
        match mutation {
            CacheMutation::Put { key, revision, payload, expires_at_ms } => {
                if !self.accepts(buf::bytes_as_slice(key), *revision) {
                    return ApplyOutcome::Ignored;
                }
                match transport.read_payload(fleet, *payload) {
                    Some(value) => {
                        self.put_entry(
                            LocalEntry {
                                key: key.clone(),
                                revision: *revision,
                                held: Some((value, *expires_at_ms)),
                            },
                        );
                        ApplyOutcome::Applied
                    },
                    None => {
                        self.put_entry(
                            LocalEntry { key: key.clone(), revision: *revision, held: None },
                        );
                        ApplyOutcome::PayloadUnavailable { key: key.clone() }
                    },
                }
            },
            CacheMutation::Delete { key, revision } => {
                if !self.accepts(buf::bytes_as_slice(key), *revision) {
                    return ApplyOutcome::Ignored;
                }
                self.put_entry(LocalEntry { key: key.clone(), revision: *revision, held: None });
                ApplyOutcome::Applied
            },
            CacheMutation::Reset { revision } => {
                if self.reset_local(*revision) {
                    ApplyOutcome::Applied
                } else {
                    ApplyOutcome::Ignored
                }
            },
        }
    }
}

} // verus!
