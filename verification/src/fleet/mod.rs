//! One member's handle on its fleet.
//!
//! A fleet is a set of equal members that share rings and a contest table. A
//! member is addressed by its slot number. Everything it publishes goes to the
//! lane it owns in the rings of the kind.

use bytes::Bytes;
use vstd::prelude::*;

pub mod cursor;
pub mod heartbeat;
pub mod laws;
pub mod model;

use crate::buf;
use crate::contest::model::{ClaimRequest, TableView};
use crate::contest::state;
use crate::contest::state::{ContestStateStore, LeaseState, StateClaim};
use crate::error::{Error, Result};
use crate::id::NetId64;
use crate::node::NodeId;
use crate::ring;
use crate::ring::cursor::RingRead;
use crate::ring::registry;
use crate::ring::registry::{FamilyView, RingRegistry};
use crate::ring::{Frame, Ring, RingSpec, RingTopology};
use crate::OrbitTyped;
use model::FleetView;

verus! {

/// What the members of a fleet share: its name, its size, its rings and its
/// contest table.
pub struct FleetSurfaces {
    name: String,
    fleet_size: u8,
    registry: RingRegistry,
    contest: ContestStateStore,
}

/// One member's handle on its fleet.
pub struct Fleet {
    surfaces: FleetSurfaces,
    node_id: NodeId,
    minted: Vec<u64>,
}

impl FleetSurfaces {
    pub closed spec fn wf(&self) -> bool {
        &&& self.registry.wf()
        &&& self.registry.spec_size() == self.fleet_size
        &&& self.contest.wf()
        &&& self.contest@.consistent()
        &&& self.fleet_size > 0
    }

    /// The shared part of a fleet, as a value.
    pub closed spec fn spec_name(&self) -> Seq<char> {
        self.name@
    }

    pub closed spec fn spec_size(&self) -> u8 {
        self.fleet_size
    }

    pub closed spec fn spec_rings(&self) -> Map<u8, FamilyView> {
        self.registry@
    }

    pub closed spec fn spec_contest(&self) -> TableView {
        self.contest@
    }
}

impl View for Fleet {
    type V = FleetView;

    closed spec fn view(&self) -> FleetView {
        FleetView {
            name: self.surfaces.name@,
            size: self.surfaces.fleet_size,
            node: self.node_id.spec_get(),
            rings: self.surfaces.registry@,
            contest: self.surfaces.contest@,
            minted: self.minted@,
        }
    }
}

impl Fleet {
    pub closed spec fn wf(&self) -> bool {
        &&& self.surfaces.wf()
        &&& self.node_id.spec_get() < self.surfaces.fleet_size
        &&& self.minted@.len() == 256
    }

    /// What the representation says of the value.
    pub proof fn lemma_consistent(&self)
        requires
            self.wf(),
        ensures
            self@.consistent(),
    {
        self.surfaces.registry.lemma_wf_consistent();
    }

    /// Join a new fleet as its first member.
    pub fn join(name: &str, fleet_size: u8) -> (fleet: Result<Fleet>)
        ensures
            match fleet {
                Ok(fleet) => fleet_size > 0 && fleet.wf() && fleet@ == fresh_fleet(
                    name@,
                    fleet_size,
                    0,
                ),
                Err(error) => fleet_size == 0 && error == Error::EmptyFleet,
            },
    {
        Fleet::join_as(name, fleet_size, NodeId::new(0))
    }

    /// Join a new fleet as the member with a given slot number.
    pub fn join_as(name: &str, fleet_size: u8, node_id: NodeId) -> (fleet: Result<Fleet>)
        ensures
            match fleet {
                Ok(fleet) => node_id.spec_get() < fleet_size && fleet.wf() && fleet@ == fresh_fleet(
                    name@,
                    fleet_size,
                    node_id.spec_get(),
                ),
                Err(error) => if fleet_size == 0 {
                    error == Error::EmptyFleet
                } else {
                    node_id.spec_get() >= fleet_size && error == (Error::NodeOutsideFleet {
                        node_id: node_id.spec_get(),
                        fleet_size,
                    })
                },
            },
    {
        if fleet_size == 0 {
            return Err(Error::EmptyFleet);
        }
        let surfaces = FleetSurfaces {
            name: name.to_owned(),
            fleet_size,
            registry: RingRegistry::new(fleet_size),
            contest: ContestStateStore::in_memory(),
        };
        Fleet::attach(surfaces, node_id)
    }

    /// Join an existing fleet as the member with a given slot number.
    pub fn attach(surfaces: FleetSurfaces, node_id: NodeId) -> (fleet: Result<Fleet>)
        requires
            surfaces.wf(),
        ensures
            match fleet {
                Ok(fleet) => {
                    &&& node_id.spec_get() < surfaces.spec_size()
                    &&& fleet.wf()
                    &&& fleet@ == (FleetView {
                        name: surfaces.spec_name(),
                        size: surfaces.spec_size(),
                        node: node_id.spec_get(),
                        rings: surfaces.spec_rings(),
                        contest: surfaces.spec_contest(),
                        minted: Seq::new(256, |i: int| 0u64),
                    })
                },
                Err(error) => node_id.spec_get() >= surfaces.spec_size() && error == (
                Error::NodeOutsideFleet {
                    node_id: node_id.spec_get(),
                    fleet_size: surfaces.spec_size(),
                }),
            },
    {
        if node_id.get() >= surfaces.fleet_size as u16 {
            return Err(
                Error::NodeOutsideFleet {
                    node_id: node_id.get(),
                    fleet_size: surfaces.fleet_size,
                },
            );
        }
        let mut minted: Vec<u64> = Vec::new();
        let mut i: usize = 0;
        while i < 256
            invariant
                i <= 256,
                minted@ == Seq::new(i as nat, |j: int| 0u64),
            decreases 256 - i,
        {
            minted.push(0);
            i = i + 1;
            proof {
                assert(minted@ =~= Seq::new(i as nat, |j: int| 0u64));
            }
        }
        Ok(Fleet { surfaces, node_id, minted })
    }

    /// Leave the fleet; what its members share stays for the next one to attach.
    pub fn detach(self) -> (surfaces: FleetSurfaces)
        requires
            self.wf(),
        ensures
            surfaces.wf(),
            surfaces.spec_name() == self@.name,
            surfaces.spec_size() == self@.size,
            surfaces.spec_rings() == self@.rings,
            surfaces.spec_contest() == self@.contest,
    {
        self.surfaces
    }

    /// The fleet's name.
    pub fn name(&self) -> (name: &str)
        ensures
            name@ == self@.name,
    {
        self.surfaces.name.as_str()
    }

    /// Number of member slots.
    pub fn fleet_size(&self) -> (size: u8)
        ensures
            size == self@.size,
    {
        self.surfaces.fleet_size
    }

    /// The slot of this member.
    pub fn node_id(&self) -> (node_id: NodeId)
        ensures
            node_id.spec_get() == self@.node,
    {
        self.node_id
    }

    /// Mint an identifier of a kind without writing to its ring. Each kind has a
    /// counter of its own.
    pub fn next_id<T: OrbitTyped>(&mut self) -> (id: NetId64)
        requires
            old(self).wf(),
        ensures
            final(self).wf(),
            id == NetId64::minted(
                T::KIND,
                old(self)@.node,
                old(self)@.minted[T::KIND as int] as nat,
            ),
            final(self)@ == old(self)@.after_mint(T::KIND),
    {
        let at: usize = T::KIND as usize;
        let counter: u64 = self.minted[at];
        self.minted.set(at, counter.wrapping_add(1));
        NetId64::make(T::KIND, self.node_id.get(), counter)
    }
}

impl Fleet {
    /// Whether `T` can be used here: its layout is sound, and its kind is not in
    /// use with another one.
    pub fn is_compatible<T: OrbitTyped>(&self) -> (yes: bool)
        requires
            self.wf(),
        ensures
            yes == self@.compatible(T::KIND, RingSpec::declared::<T>()),
    {
        let spec = RingSpec::of::<T>();
        if !spec.is_valid() {
            return false;
        }
        match self.surfaces.registry.lookup(T::KIND) {
            Some(family) => family.spec() == spec,
            None => true,
        }
    }

    /// Whether this member can append `count` more frames of `T`.
    pub fn has_room<T: OrbitTyped>(&self, count: u64) -> (yes: bool)
        requires
            self.wf(),
        ensures
            yes == self@.has_room(T::KIND, RingSpec::declared::<T>(), count as nat),
    {
        self.is_compatible::<T>() && count <= u64::MAX - self.head::<T>()
    }

    fn lane_of_kind(&self, kind: u8) -> (lane: Option<&Ring>)
        requires
            self.wf(),
        ensures
            match lane {
                Some(lane) => self@.rings.contains_key(kind) && lane.wf() && lane@
                    == self@.rings[kind].home(self@.node),
                None => !self@.rings.contains_key(kind),
            },
    {
        proof {
            self.lemma_consistent();
        }
        match self.surfaces.registry.lookup(kind) {
            Some(family) => {
                let at: usize = match family.spec().topology {
                    RingTopology::PerNode => self.node_id.get() as usize,
                    _ => 0,
                };
                Some(family.lane(at))
            },
            None => None,
        }
    }

    /// The lane of `T` that this member writes to, once the ring exists.
    pub fn lane<T: OrbitTyped>(&self) -> (lane: Option<&Ring>)
        requires
            self.wf(),
        ensures
            match lane {
                Some(lane) => self@.rings.contains_key(T::KIND) && lane.wf() && lane@
                    == self@.rings[T::KIND].home(self@.node),
                None => !self@.rings.contains_key(T::KIND),
            },
    {
        self.lane_of_kind(T::KIND)
    }

    /// Number of lanes of `T`.
    pub fn lane_len<T: OrbitTyped>(&self) -> (len: usize)
        requires
            self.wf(),
            self@.compatible(T::KIND, RingSpec::declared::<T>()),
        ensures
            len == self@.family(T::KIND, RingSpec::declared::<T>()).lanes.len(),
    {
        match self.surfaces.registry.lookup(T::KIND) {
            Some(family) => family.lane_len(),
            None => match T::TOPOLOGY {
                RingTopology::PerNode => self.surfaces.fleet_size as usize,
                _ => 1,
            },
        }
    }

    /// One lane of `T`, once the ring exists.
    pub fn lane_number<T: OrbitTyped>(&self, at: usize) -> (lane: Option<&Ring>)
        requires
            self.wf(),
            self@.compatible(T::KIND, RingSpec::declared::<T>()),
            at < self@.family(T::KIND, RingSpec::declared::<T>()).lanes.len(),
        ensures
            match lane {
                Some(lane) => self@.rings.contains_key(T::KIND) && lane.wf() && lane@ == self@.family(
                    T::KIND,
                    RingSpec::declared::<T>(),
                ).lanes[at as int],
                None => !self@.rings.contains_key(T::KIND),
            },
    {
        match self.surfaces.registry.lookup(T::KIND) {
            Some(family) => Some(family.lane(at)),
            None => None,
        }
    }

    /// The lane of `T` that this member writes to; the ring is created where it
    /// does not exist.
    pub fn ring<T: OrbitTyped>(&mut self) -> (lane: &Ring)
        requires
            old(self).wf(),
            old(self)@.compatible(T::KIND, RingSpec::declared::<T>()),
        ensures
            final(self).wf(),
            final(self)@ == old(self)@.with_family(
                T::KIND,
                old(self)@.family(T::KIND, RingSpec::declared::<T>()),
            ),
            lane.wf(),
            lane@ == old(self)@.home(T::KIND, RingSpec::declared::<T>()),
    {
        proof {
            self.lemma_consistent();
            model::lemma_family_consistent(self@, T::KIND, RingSpec::declared::<T>());
        }
        let at: usize = match T::TOPOLOGY {
            RingTopology::PerNode => self.node_id.get() as usize,
            _ => 0,
        };
        self.surfaces.registry.get_or_create(T::KIND, RingSpec::of::<T>()).lane(at)
    }

    /// Publish a frame of `T` and return the identifier minted for it.
    pub fn publish<T: OrbitTyped>(&mut self, frame_kind: u8, ver: u64, payload: Bytes) -> (id:
        NetId64)
        requires
            old(self).wf(),
            old(self)@.has_room(T::KIND, RingSpec::declared::<T>(), 1),
            buf::bytes_contents(payload).len() <= T::PAYLOAD_CAPACITY,
        ensures
            final(self).wf(),
            id == NetId64::minted(
                T::KIND,
                old(self)@.node,
                old(self)@.home(T::KIND, RingSpec::declared::<T>()).head(),
            ),
            final(self)@ == old(self)@.published(
                T::KIND,
                RingSpec::declared::<T>(),
                frame_kind,
                ver,
                buf::bytes_contents(payload),
            ),
    {
        let spec = RingSpec::of::<T>();
        self.surfaces.registry.write(T::KIND, spec, self.node_id, frame_kind, ver, payload)
    }

    /// Publish several frames of `T` with one version, one directly behind the
    /// other, and return the identifier of the first.
    pub fn publish_batch<T: OrbitTyped>(
        &mut self,
        frame_kind: u8,
        ver: u64,
        payloads: Vec<Bytes>,
    ) -> (first: NetId64)
        requires
            old(self).wf(),
            payloads@.len() > 0,
            old(self)@.has_room(T::KIND, RingSpec::declared::<T>(), payloads@.len()),
            forall|i: int|
                0 <= i < payloads@.len() ==> buf::bytes_contents(#[trigger] payloads@[i]).len()
                    <= T::PAYLOAD_CAPACITY,
        ensures
            final(self).wf(),
            first == NetId64::minted(
                T::KIND,
                old(self)@.node,
                old(self)@.home(T::KIND, RingSpec::declared::<T>()).head(),
            ),
            final(self)@ == old(self)@.published_batch(
                T::KIND,
                RingSpec::declared::<T>(),
                frame_kind,
                ver,
                buf::all_contents(payloads@),
            ),
    {
        let ghost before = self@;
        let ghost spec = RingSpec::declared::<T>();
        proof {
            self.lemma_consistent();
            assert(buf::all_contents(payloads@.take(0)) =~= seq![]);
        }
        let first = NetId64::make(T::KIND, self.node_id.get(), self.head::<T>());
        let mut i: usize = 0;
        while i < payloads.len()
            invariant
                self.wf(),
                i <= payloads@.len(),
                before.consistent(),
                before.has_room(T::KIND, spec, payloads@.len()),
                spec == RingSpec::declared::<T>(),
                self@ == before.published_batch(
                    T::KIND,
                    spec,
                    frame_kind,
                    ver,
                    buf::all_contents(payloads@.take(i as int)),
                ),
                forall|j: int|
                    0 <= j < payloads@.len() ==> buf::bytes_contents(#[trigger] payloads@[j]).len()
                        <= T::PAYLOAD_CAPACITY,
            decreases payloads@.len() - i,
        {
            proof {
                model::lemma_published_batch(
                    before,
                    T::KIND,
                    spec,
                    frame_kind,
                    ver,
                    buf::all_contents(payloads@.take(i as int)),
                );
            }
            let _ = self.publish::<T>(frame_kind, ver, payloads[i].clone());
            i = i + 1;
            proof {
                assert(buf::all_contents(payloads@.take(i as int)).drop_last()
                    =~= buf::all_contents(payloads@.take(i - 1)));
                assert(buf::all_contents(payloads@.take(i as int)).last() == buf::bytes_contents(
                    payloads@[i - 1],
                ));
            }
        }
        proof {
            assert(payloads@.take(i as int) =~= payloads@);
        }
        first
    }

    /// Read the frame with exactly this identifier, while its lane retains it.
    pub fn read(&self, id: NetId64) -> (frame: Option<Frame>)
        requires
            self.wf(),
        ensures
            ring::slot_view(frame) == self@.found(id),
    {
        match self.surfaces.registry.lookup(id.kind()) {
            Some(family) => {
                let at: usize = match family.spec().topology {
                    RingTopology::PerNode => id.node() as usize,
                    _ => 0,
                };
                if at < family.lane_len() {
                    family.lane(at).read(id)
                } else {
                    None
                }
            },
            None => None,
        }
    }

    /// Number of counters handed out in the lane of `T` that this member writes
    /// to.
    pub fn head<T: OrbitTyped>(&self) -> (head: u64)
        requires
            self.wf(),
            self@.compatible(T::KIND, RingSpec::declared::<T>()),
        ensures
            head == self@.home(T::KIND, RingSpec::declared::<T>()).head(),
    {
        proof {
            self.lemma_consistent();
            model::lemma_family_consistent(self@, T::KIND, RingSpec::declared::<T>());
        }
        match self.lane_of_kind(T::KIND) {
            Some(lane) => lane.head(),
            None => 0,
        }
    }

    /// Slot count of each lane of `T`.
    pub fn ring_capacity<T: OrbitTyped>(&self) -> (capacity: usize)
        ensures
            capacity == T::CAPACITY,
    {
        T::CAPACITY
    }

    /// The most recent frame of the lane of `T` that this member writes to.
    pub fn read_head<T: OrbitTyped>(&self) -> (frame: Option<Frame>)
        requires
            self.wf(),
            self@.compatible(T::KIND, RingSpec::declared::<T>()),
        ensures
            ring::slot_view(frame) == self@.home(T::KIND, RingSpec::declared::<T>()).latest(),
    {
        proof {
            self.lemma_consistent();
            model::lemma_family_consistent(self@, T::KIND, RingSpec::declared::<T>());
        }
        match self.lane_of_kind(T::KIND) {
            Some(lane) => lane.read_head(),
            None => None,
        }
    }

    /// Whatever frame occupies the slot of `counter` in the lane of `T` that this
    /// member writes to.
    pub fn read_at<T: OrbitTyped>(&self, counter: u64) -> (frame: Option<Frame>)
        requires
            self.wf(),
            self@.compatible(T::KIND, RingSpec::declared::<T>()),
        ensures
            ring::slot_view(frame) == self@.home(T::KIND, RingSpec::declared::<T>()).occupant(
                counter as nat,
            ),
    {
        proof {
            self.lemma_consistent();
            model::lemma_family_consistent(self@, T::KIND, RingSpec::declared::<T>());
        }
        match self.lane_of_kind(T::KIND) {
            Some(lane) => lane.read_at(counter),
            None => None,
        }
    }

    /// Classify the position `counter` of the lane of `T` that this member writes
    /// to.
    pub fn read_state_at<T: OrbitTyped>(&self, counter: u64) -> (state: RingRead)
        requires
            self.wf(),
            self@.compatible(T::KIND, RingSpec::declared::<T>()),
        ensures
            state@ == self@.home(T::KIND, RingSpec::declared::<T>()).state_at(counter),
    {
        proof {
            self.lemma_consistent();
            model::lemma_family_consistent(self@, T::KIND, RingSpec::declared::<T>());
        }
        match self.lane_of_kind(T::KIND) {
            Some(lane) => lane.read_state_at(counter),
            None => RingRead::Pending,
        }
    }

    /// Clear every lane of `T`. For owner-controlled cleanup while no member
    /// publishes.
    pub fn reset_ring<T: OrbitTyped>(&mut self)
        requires
            old(self).wf(),
            old(self)@.compatible(T::KIND, RingSpec::declared::<T>()),
        ensures
            final(self).wf(),
            final(self)@ == old(self)@.with_family(
                T::KIND,
                FamilyView::fresh(T::KIND, RingSpec::declared::<T>(), old(self)@.size),
            ),
    {
        let spec = RingSpec::of::<T>();
        self.surfaces.registry.reset(T::KIND, spec);
    }

    /// The last version that the members allocated for `T`.
    pub fn current_version<T: OrbitTyped>(&self) -> (version: u64)
        requires
            self.wf(),
            self@.compatible(T::KIND, RingSpec::declared::<T>()),
        ensures
            version == self@.family(T::KIND, RingSpec::declared::<T>()).version,
    {
        match self.surfaces.registry.lookup(T::KIND) {
            Some(family) => family.version(),
            None => 0,
        }
    }

    /// Allocate the next version of `T`. All members and all lanes share one
    /// allocator.
    pub fn next_version<T: OrbitTyped>(&mut self) -> (version: u64)
        requires
            old(self).wf(),
            old(self)@.compatible(T::KIND, RingSpec::declared::<T>()),
            old(self)@.family(T::KIND, RingSpec::declared::<T>()).version < u64::MAX,
        ensures
            final(self).wf(),
            version == old(self)@.family(T::KIND, RingSpec::declared::<T>()).version + 1,
            final(self)@ == old(self)@.with_family(
                T::KIND,
                (FamilyView {
                    version,
                    ..old(self)@.family(T::KIND, RingSpec::declared::<T>())
                }),
            ),
    {
        let spec = RingSpec::of::<T>();
        self.surfaces.registry.next_version(T::KIND, spec)
    }
}

impl Fleet {
    /// Claim a subject of the contest table for this member.
    pub(crate) fn contest_claim(
        &mut self,
        subject_kind: u8,
        subject: &[u8],
        owner: &[u8],
        claimed_at_ms: u64,
        expires_at_ms: u64,
    ) -> (result: Result<StateClaim>)
        requires
            old(self).wf(),
        ensures
            final(self).wf(),
            !state::labels_fit(subject@, owner@) ==> final(self)@ == old(self)@ && result == Err::<
                StateClaim,
                Error,
            >(state::label_error(subject@, owner@)),
            state::labels_fit(subject@, owner@) ==> {
                let request = ClaimRequest {
                    node: old(self)@.node,
                    kind: subject_kind,
                    subject: subject@,
                    owner: owner@,
                    claimed_at_ms,
                    expires_at_ms,
                };
                &&& final(self)@ == (FleetView {
                    contest: old(self)@.contest.after_claim(request),
                    ..old(self)@
                })
                &&& state::claim_result(result) == old(self)@.contest.claim_outcome(request)
            },
    {
        self.surfaces.contest.claim(
            self.node_id,
            subject_kind,
            subject,
            owner,
            claimed_at_ms,
            expires_at_ms,
        )
    }

    /// Renew a tenure of the contest table.
    pub(crate) fn contest_renew(
        &mut self,
        subject_kind: u8,
        subject: &[u8],
        claim_id: NetId64,
        expires_at_ms: u64,
        now_ms: u64,
    ) -> (result: Result<LeaseState>)
        requires
            old(self).wf(),
        ensures
            final(self).wf(),
            !state::labels_fit(subject@, seq![]) ==> final(self)@ == old(self)@ && result == Err::<
                LeaseState,
                Error,
            >(state::label_error(subject@, seq![])),
            state::labels_fit(subject@, seq![]) ==> {
                &&& final(self)@ == (FleetView {
                    contest: old(self)@.contest.after_renew(
                        subject_kind,
                        subject@,
                        claim_id,
                        expires_at_ms,
                        now_ms,
                    ),
                    ..old(self)@
                })
                &&& match old(self)@.contest.renewed(
                    subject_kind,
                    subject@,
                    claim_id,
                    expires_at_ms,
                    now_ms,
                ) {
                    Some(lease) => result is Ok && result->Ok_0@ == lease,
                    None => result == Err::<LeaseState, Error>(
                        Error::ContestLeaseLost { claim_id },
                    ),
                }
            },
    {
        self.surfaces.contest.renew(subject_kind, subject, claim_id, expires_at_ms, now_ms)
    }

    /// Release a tenure of the contest table.
    pub(crate) fn contest_release(&mut self, subject_kind: u8, subject: &[u8], claim_id: NetId64) -> (result:
        Result<()>)
        requires
            old(self).wf(),
        ensures
            final(self).wf(),
            !state::labels_fit(subject@, seq![]) ==> final(self)@ == old(self)@ && result == Err::<
                (),
                Error,
            >(state::label_error(subject@, seq![])),
            state::labels_fit(subject@, seq![]) ==> {
                &&& final(self)@ == (FleetView {
                    contest: old(self)@.contest.after_release(subject_kind, subject@, claim_id),
                    ..old(self)@
                })
                &&& result == Ok::<(), Error>(())
            },
    {
        self.surfaces.contest.release(subject_kind, subject, claim_id)
    }

    /// Forget every lease of the contest table.
    pub(crate) fn contest_reset(&mut self)
        requires
            old(self).wf(),
        ensures
            final(self).wf(),
            final(self)@ == (FleetView { contest: TableView::fresh(), ..old(self)@ }),
    {
        self.surfaces.contest.reset()
    }
}

/// A fleet that nothing has happened in yet.
pub open spec fn fresh_fleet(name: Seq<char>, size: u8, node: u16) -> FleetView {
    FleetView {
        name,
        size,
        node,
        rings: Map::empty(),
        contest: TableView::fresh(),
        minted: Seq::new(256, |i: int| 0u64),
    }
}

} // verus!
