//! Kind-keyed registry of rings.
//!
//! A kind owns one family: one shared lane, or one lane per member, all with the
//! layout that the kind declares, and one version allocator for all its lanes.
//! The concurrent index from kinds to families is a `dashmap::DashMap`.

use bytes::Bytes;
use dashmap::DashMap;
use vstd::prelude::*;

use crate::buf;
use crate::id::NetId64;
use crate::node::NodeId;
use crate::ring::{Ring, RingSpec, RingTopology, RingView};

verus! {

#[verifier::external_type_specification]
#[verifier::external_body]
#[verifier::reject_recursive_types(K)]
#[verifier::reject_recursive_types(V)]
#[verifier::reject_recursive_types(S)]
pub struct ExDashMap<K, V, S>(dashmap::DashMap<K, V, S>);

/// The entries of an index.
pub uninterp spec fn index_contents(index: DashMap<u8, usize>) -> Map<u8, usize>;

/// Calls `dashmap::DashMap::new`: an index without entries.
#[verifier::external_body]
pub(crate) fn index_new() -> (index: DashMap<u8, usize>)
    ensures
        index_contents(index).dom() == Set::<u8>::empty(),
{
    DashMap::new()
}

/// Calls `dashmap::DashMap::get` and copies what it refers to: the value stored
/// under `kind`, or nothing. No reference into the index outlives the call.
#[verifier::external_body]
pub(crate) fn index_get(index: &DashMap<u8, usize>, kind: u8) -> (at: Option<usize>)
    ensures
        at == (if index_contents(*index).contains_key(kind) {
            Some(index_contents(*index)[kind])
        } else {
            None
        }),
{
    match index.get(&kind) {
        Some(entry) => Some(*entry),
        None => None,
    }
}

/// Calls `dashmap::DashMap::entry` and `or_insert` on it: the value stored under
/// `kind`, which is `fresh` where there was none before. Other entries stay.
#[verifier::external_body]
pub(crate) fn index_entry(index: &mut DashMap<u8, usize>, kind: u8, fresh: usize) -> (at: usize)
    ensures
        at == (if index_contents(*old(index)).contains_key(kind) {
            index_contents(*old(index))[kind]
        } else {
            fresh
        }),
        index_contents(*final(index)) == (if index_contents(*old(index)).contains_key(kind) {
            index_contents(*old(index))
        } else {
            index_contents(*old(index)).insert(kind, fresh)
        }),
{
    *index.entry(kind).or_insert(fresh)
}

/// Number of lanes of a ring in a fleet of `size` members.
pub open spec fn lane_count(topology: RingTopology, size: u8) -> nat {
    match topology {
        RingTopology::PerNode => size as nat,
        _ => 1,
    }
}

/// The lane that a member writes to.
pub open spec fn lane_of(topology: RingTopology, node: u16) -> int {
    match topology {
        RingTopology::PerNode => node as int,
        _ => 0,
    }
}

/// The rings of one kind, as values.
#[verifier::ext_equal]
pub struct FamilyView {
    pub kind: u8,
    pub spec: RingSpec,
    pub version: u64,
    pub lanes: Seq<RingView>,
}

impl FamilyView {
    /// The family of a kind nobody has written to.
    pub open spec fn fresh(kind: u8, spec: RingSpec, size: u8) -> FamilyView {
        FamilyView {
            kind,
            spec,
            version: 0,
            lanes: Seq::new(
                lane_count(spec.topology, size),
                |i: int| RingView::fresh(kind, spec),
            ),
        }
    }

    /// All lanes carry the family's kind and layout.
    pub open spec fn consistent(self, size: u8) -> bool {
        &&& self.spec.valid()
        &&& self.lanes.len() == lane_count(self.spec.topology, size)
        &&& forall|i: int|
            0 <= i < self.lanes.len() ==> {
                &&& (#[trigger] self.lanes[i]).kind == self.kind
                &&& self.lanes[i].spec == self.spec
                &&& self.lanes[i].consistent()
                &&& self.lanes[i].head() <= u64::MAX
            }
    }

    /// The lane a member writes to.
    pub open spec fn home(self, node: u16) -> RingView {
        self.lanes[lane_of(self.spec.topology, node)]
    }

    /// The family after a write of a member.
    pub open spec fn appended(
        self,
        node: u16,
        frame_kind: u8,
        ver: u64,
        payload: Seq<u8>,
    ) -> FamilyView {
        FamilyView {
            lanes: self.lanes.update(
                lane_of(self.spec.topology, node),
                self.home(node).appended(node, frame_kind, ver, payload),
            ),
            ..self
        }
    }
}

/// The rings of one kind.
pub struct RingFamily {
    kind: u8,
    spec: RingSpec,
    version: u64,
    lanes: Vec<Ring>,
}

/// The values of a list of lanes.
pub open spec fn lane_views(lanes: Seq<Ring>) -> Seq<RingView> {
    lanes.map_values(|lane: Ring| lane@)
}

impl View for RingFamily {
    type V = FamilyView;

    closed spec fn view(&self) -> FamilyView {
        FamilyView {
            kind: self.kind,
            spec: self.spec,
            version: self.version,
            lanes: lane_views(self.lanes@),
        }
    }
}

impl RingFamily {
    pub closed spec fn wf(&self, size: u8) -> bool {
        &&& self@.consistent(size)
        &&& forall|i: int| 0 <= i < self.lanes@.len() ==> (#[trigger] self.lanes@[i]).wf()
    }

    /// What the representation says of the value.
    pub proof fn lemma_wf_consistent(&self, size: u8)
        requires
            self.wf(size),
        ensures
            self@.consistent(size),
    {
    }

    /// Create the lanes of one kind.
    pub fn new(kind: u8, spec: RingSpec, size: u8) -> (family: RingFamily)
        requires
            spec.valid(),
        ensures
            family.wf(size),
            family@ == FamilyView::fresh(kind, spec, size),
    {
        let count: usize = match spec.topology {
            RingTopology::PerNode => size as usize,
            _ => 1,
        };
        let mut lanes: Vec<Ring> = Vec::new();
        let mut i: usize = 0;
        while i < count
            invariant
                i <= count,
                count == lane_count(spec.topology, size),
                spec.valid(),
                lanes@.len() == i,
                forall|j: int|
                    0 <= j < i ==> (#[trigger] lanes@[j]).wf() && lanes@[j]@ == RingView::fresh(
                        kind,
                        spec,
                    ),
            decreases count - i,
        {
            lanes.push(Ring::with_spec(kind, spec));
            i = i + 1;
        }
        let family = RingFamily { kind, spec, version: 0, lanes };
        proof {
            assert(family@.lanes =~= FamilyView::fresh(kind, spec, size).lanes);
        }
        family
    }

    /// The layout shared by all lanes.
    pub fn spec(&self) -> (spec: RingSpec)
        ensures
            spec == self@.spec,
    {
        self.spec
    }

    /// Number of lanes.
    pub fn lane_len(&self) -> (len: usize)
        ensures
            len == self@.lanes.len(),
    {
        self.lanes.len()
    }

    /// One lane.
    pub fn lane(&self, at: usize) -> (lane: &Ring)
        requires
            at < self@.lanes.len(),
        ensures
            lane@ == self@.lanes[at as int],
            forall|size: u8| #[trigger] self.wf(size) ==> lane.wf(),
    {
        &self.lanes[at]
    }

    /// The last version handed out.
    pub fn version(&self) -> (version: u64)
        ensures
            version == self@.version,
    {
        self.version
    }

    /// Hand out the next version.
    pub fn next_version(&mut self) -> (version: u64)
        requires
            old(self)@.version < u64::MAX,
        ensures
            version == old(self)@.version + 1,
            final(self)@ == (FamilyView { version, ..old(self)@ }),
            forall|size: u8| #[trigger] old(self).wf(size) ==> final(self).wf(size),
    {
        self.version = self.version + 1;
        self.version
    }

    /// Append a frame to the lane of a member.
    pub fn write(&mut self, node_id: NodeId, frame_kind: u8, ver: u64, payload: Bytes, size: u8) -> (id:
        NetId64)
        requires
            old(self).wf(size),
            node_id.spec_get() < size,
            buf::bytes_contents(payload).len() <= old(self)@.spec.payload_capacity,
            old(self)@.home(node_id.spec_get()).head() < u64::MAX,
        ensures
            final(self).wf(size),
            id == NetId64::minted(
                old(self)@.kind,
                node_id.spec_get(),
                old(self)@.home(node_id.spec_get()).head(),
            ),
            final(self)@ == old(self)@.appended(
                node_id.spec_get(),
                frame_kind,
                ver,
                buf::bytes_contents(payload),
            ),
    {
        let at: usize = match self.spec.topology {
            RingTopology::PerNode => node_id.get() as usize,
            _ => 0,
        };
        let ghost before = self.lanes@;
        proof {
            assert(self@.lanes[at as int] == before[at as int]@);
        }
        let id = self.lanes[at].write(node_id, frame_kind, ver, payload);
        proof {
            crate::id::lemma_minted_fields(
                old(self)@.kind,
                node_id.spec_get(),
                old(self)@.home(node_id.spec_get()).head(),
            );
            assert(lane_views(self.lanes@) =~= lane_views(before).update(
                at as int,
                self.lanes@[at as int]@,
            ));
            assert(self@.lanes[at as int].consistent()) by {
                self.lanes@[at as int].lemma_wf_consistent();
            }
            self.lanes@[at as int].lemma_wf_consistent();
        }
        id
    }

    /// Clear every lane and start the versions again.
    pub fn reset(&mut self, size: u8)
        requires
            old(self).wf(size),
        ensures
            final(self).wf(size),
            final(self)@ == FamilyView::fresh(old(self)@.kind, old(self)@.spec, size),
    {
        proof {
            assert forall|j: int| 0 <= j < self.lanes@.len() implies (
            #[trigger] self.lanes@[j])@.kind == self.kind && self.lanes@[j]@.spec == self.spec by {
                assert(self@.lanes[j] == self.lanes@[j]@);
            }
        }
        let mut i: usize = 0;
        while i < self.lanes.len()
            invariant
                i <= self.lanes@.len(),
                self.lanes@.len() == old(self)@.lanes.len(),
                self.kind == old(self)@.kind,
                self.spec == old(self)@.spec,
                forall|j: int| 0 <= j < self.lanes@.len() ==> (#[trigger] self.lanes@[j]).wf(),
                forall|j: int|
                    0 <= j < self.lanes@.len() ==> (#[trigger] self.lanes@[j])@.kind == self.kind
                        && self.lanes@[j]@.spec == self.spec,
                forall|j: int|
                    0 <= j < i ==> (#[trigger] self.lanes@[j])@ == RingView::fresh(
                        self.kind,
                        self.spec,
                    ),
            decreases self.lanes@.len() - i,
        {
            self.lanes[i].reset();
            i = i + 1;
        }
        self.version = 0;
        proof {
            assert(self@.lanes =~= FamilyView::fresh(self.kind, self.spec, size).lanes);
        }
    }
}

/// Registry of the rings of one fleet.
pub struct RingRegistry {
    size: u8,
    index: DashMap<u8, usize>,
    families: Vec<RingFamily>,
}

impl View for RingRegistry {
    type V = Map<u8, FamilyView>;

    closed spec fn view(&self) -> Map<u8, FamilyView> {
        Map::new(
            |kind: u8| index_contents(self.index).contains_key(kind),
            |kind: u8| self.families@[index_contents(self.index)[kind] as int]@,
        )
    }
}

/// What the registry of a fleet of `size` members can hold: under each kind, a
/// consistent family of that kind.
pub open spec fn registry_consistent(rings: Map<u8, FamilyView>, size: u8) -> bool {
    forall|kind: u8| #[trigger]
        rings.contains_key(kind) ==> rings[kind].kind == kind && rings[kind].consistent(size)
}

impl RingRegistry {
    /// Number of members the rings are laid out for.
    pub closed spec fn spec_size(&self) -> u8 {
        self.size
    }

    /// The index names, for each kind, the family of that kind.
    pub closed spec fn wf(&self) -> bool {
        &&& forall|i: int|
            0 <= i < self.families@.len() ==> (#[trigger] self.families@[i]).wf(self.size)
        &&& forall|kind: u8| #[trigger]
            index_contents(self.index).contains_key(kind) ==> {
                let at = index_contents(self.index)[kind] as int;
                at < self.families@.len() && self.families@[at]@.kind == kind
            }
        &&& registry_consistent(self@, self.size)
    }

    /// What the representation says of the value.
    pub proof fn lemma_wf_consistent(&self)
        requires
            self.wf(),
        ensures
            registry_consistent(self@, self.spec_size()),
    {
    }

    /// The registry of a fleet of `size` members, without rings.
    pub fn new(size: u8) -> (registry: RingRegistry)
        ensures
            registry.wf(),
            registry.spec_size() == size,
            registry@ == Map::<u8, FamilyView>::empty(),
    {
        let registry = RingRegistry { size, index: index_new(), families: Vec::new() };
        proof {
            assert(registry@ =~= Map::<u8, FamilyView>::empty());
        }
        registry
    }

    /// Look up the rings of a kind.
    pub fn lookup(&self, kind: u8) -> (family: Option<&RingFamily>)
        requires
            self.wf(),
        ensures
            match family {
                Some(family) => self@.contains_key(kind) && family@ == self@[kind] && family.wf(
                    self.spec_size(),
                ),
                None => !self@.contains_key(kind),
            },
    {
        match index_get(&self.index, kind) {
            Some(at) => Some(&self.families[at]),
            None => None,
        }
    }

    /// Where the rings of a kind stand; they are created where there are none.
    fn place_of(&mut self, kind: u8, spec: RingSpec) -> (at: usize)
        requires
            old(self).wf(),
            spec.valid(),
        ensures
            final(self).wf(),
            final(self).spec_size() == old(self).spec_size(),
            final(self)@ == old(self)@.insert(kind, family_of(old(self)@, kind, spec, old(self).spec_size())),
            index_contents(final(self).index).contains_key(kind),
            index_contents(final(self).index)[kind] == at,
            at < final(self).families@.len(),
            final(self).families@[at as int]@ == final(self)@[kind],
    {
        let fresh: usize = self.families.len();
        let at: usize = index_entry(&mut self.index, kind, fresh);
        if at == fresh {
            self.families.push(RingFamily::new(kind, spec, self.size));
        }
        proof {
            assert forall|other: u8| #[trigger] self@.contains_key(other) implies self@[other]
                == old(self)@.insert(kind, family_of(old(self)@, kind, spec, old(self).spec_size()))[other] by {
                if other != kind {
                    assert(index_contents(old(self).index).contains_key(other));
                    assert(old(self)@.contains_key(other));
                } else if old(self)@.contains_key(kind) {
                    assert(index_contents(old(self).index).contains_key(kind));
                }
            }
            assert(self@ =~= old(self)@.insert(kind, family_of(old(self)@, kind, spec, old(self).spec_size())));
            assert(FamilyView::fresh(kind, spec, old(self).spec_size()).consistent(self.size));
        }
        at
    }

    /// The rings of a kind; they are created where there are none.
    pub fn get_or_create(&mut self, kind: u8, spec: RingSpec) -> (family: &RingFamily)
        requires
            old(self).wf(),
            spec.valid(),
        ensures
            final(self).wf(),
            final(self).spec_size() == old(self).spec_size(),
            final(self)@ == old(self)@.insert(kind, family_of(old(self)@, kind, spec, old(self).spec_size())),
            family@ == family_of(old(self)@, kind, spec, old(self).spec_size()),
            family.wf(old(self).spec_size()),
    {
        let at: usize = self.place_of(kind, spec);
        &self.families[at]
    }

    /// Append a frame to the lane of a member in the rings of a kind.
    pub fn write(
        &mut self,
        kind: u8,
        spec: RingSpec,
        node_id: NodeId,
        frame_kind: u8,
        ver: u64,
        payload: Bytes,
    ) -> (id: NetId64)
        requires
            old(self).wf(),
            spec.valid(),
            node_id.spec_get() < old(self).spec_size(),
            buf::bytes_contents(payload).len() <= family_of(
                old(self)@,
                kind,
                spec,
                old(self).spec_size(),
            ).spec.payload_capacity,
            family_of(old(self)@, kind, spec, old(self).spec_size()).home(node_id.spec_get()).head() < u64::MAX,
        ensures
            final(self).wf(),
            final(self).spec_size() == old(self).spec_size(),
            ({
                let family = family_of(old(self)@, kind, spec, old(self).spec_size());
                let node = node_id.spec_get();
                &&& id == NetId64::minted(kind, node, family.home(node).head())
                &&& final(self)@ == old(self)@.insert(
                    kind,
                    family.appended(node, frame_kind, ver, buf::bytes_contents(payload)),
                )
            }),
    {
        let at: usize = self.place_of(kind, spec);
        let ghost created = self@;
        let ghost families = self.families@;
        let id = self.families[at].write(node_id, frame_kind, ver, payload, self.size);
        proof {
            self.lemma_family_replaced(families, created, kind, at as int);
            assert(self@ =~= old(self)@.insert(kind, self.families@[at as int]@));
        }
        id
    }

    /// Hand out the next version of a kind.
    pub fn next_version(&mut self, kind: u8, spec: RingSpec) -> (version: u64)
        requires
            old(self).wf(),
            spec.valid(),
            family_of(old(self)@, kind, spec, old(self).spec_size()).version < u64::MAX,
        ensures
            final(self).wf(),
            final(self).spec_size() == old(self).spec_size(),
            ({
                let family = family_of(old(self)@, kind, spec, old(self).spec_size());
                &&& version == family.version + 1
                &&& final(self)@ == old(self)@.insert(kind, FamilyView { version, ..family })
            }),
    {
        let at: usize = self.place_of(kind, spec);
        let ghost created = self@;
        let ghost families = self.families@;
        let version: u64 = self.families[at].next_version();
        proof {
            self.lemma_family_replaced(families, created, kind, at as int);
            assert(self@ =~= old(self)@.insert(kind, self.families@[at as int]@));
        }
        version
    }

    /// Clear the rings of a kind.
    pub fn reset(&mut self, kind: u8, spec: RingSpec)
        requires
            old(self).wf(),
            spec.valid(),
            family_of(old(self)@, kind, spec, old(self).spec_size()).spec == spec,
        ensures
            final(self).wf(),
            final(self).spec_size() == old(self).spec_size(),
            final(self)@ == old(self)@.insert(kind, FamilyView::fresh(kind, spec, old(self).spec_size())),
    {
        let at: usize = self.place_of(kind, spec);
        let ghost created = self@;
        let ghost families = self.families@;
        self.families[at].reset(self.size);
        proof {
            self.lemma_family_replaced(families, created, kind, at as int);
            assert(self@ =~= old(self)@.insert(kind, self.families@[at as int]@));
        }
    }

    /// Replacing the family of one kind changes what the registry holds under
    /// that kind alone.
    proof fn lemma_family_replaced(
        &self,
        families: Seq<RingFamily>,
        before: Map<u8, FamilyView>,
        kind: u8,
        at: int,
    )
        requires
            forall|i: int| 0 <= i < families.len() ==> (#[trigger] families[i]).wf(self.size),
            forall|other: u8| #[trigger]
                index_contents(self.index).contains_key(other) ==> {
                    let i = index_contents(self.index)[other] as int;
                    i < families.len() && families[i]@.kind == other
                },
            before == Map::new(
                |other: u8| index_contents(self.index).contains_key(other),
                |other: u8| families[index_contents(self.index)[other] as int]@,
            ),
            registry_consistent(before, self.size),
            index_contents(self.index).contains_key(kind),
            index_contents(self.index)[kind] == at,
            self.families@ == families.update(at, self.families@[at]),
            self.families@[at].wf(self.size),
            self.families@[at]@.kind == kind,
        ensures
            self.wf(),
            self@ == before.insert(kind, self.families@[at]@),
    {
        assert forall|other: u8| #[trigger] self@.contains_key(other) implies self@[other]
            == before.insert(kind, self.families@[at]@)[other] by {
            if other != kind {
                let i = index_contents(self.index)[other] as int;
                assert(families[i]@.kind == other);
                assert(families[at]@.kind == kind);
                assert(i != at);
            }
        }
        assert(self@ =~= before.insert(kind, self.families@[at]@));
        assert(self.families@[at]@.consistent(self.size)) by {
            self.families@[at].lemma_wf_consistent(self.size);
        }
        assert forall|other: u8| #[trigger] index_contents(self.index).contains_key(other) implies {
            let i = index_contents(self.index)[other] as int;
            i < self.families@.len() && self.families@[i]@.kind == other
        } by {
            let i = index_contents(self.index)[other] as int;
            assert(families[i]@.kind == other);
        }
    }
}

/// The family of a kind: the one on record, or a fresh one of the given layout.
pub open spec fn family_of(
    rings: Map<u8, FamilyView>,
    kind: u8,
    spec: RingSpec,
    size: u8,
) -> FamilyView {
    if rings.contains_key(kind) {
        rings[kind]
    } else {
        FamilyView::fresh(kind, spec, size)
    }
}

/// A list of lanes is shown lane by lane, in the same order.
pub proof fn law_lanes_are_shown_in_place(lanes: Seq<Ring>, i: int)
    ensures
        lane_views(lanes).len() == lanes.len(),
        0 <= i < lanes.len() ==> lane_views(lanes)[i] == lanes[i]@,
{
}

} // verus!
