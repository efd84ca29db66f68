//! Kind-keyed registry of shared-memory rings.

use bytes::Bytes;
use dashmap::DashMap;
use vstd::prelude::*;

use crate::buf;
use crate::error::IoError;
use crate::id::NetId64;
use crate::node::NodeId;
use crate::ring::registry;
use crate::ring::shm;
use crate::ring::shm::{ShmRing, ShmSegment};
use crate::shm as segments;

verus! {

/// The shared-memory rings that one member of a fleet has open, one per kind, all
/// with the same capacity. A ring is opened the first time its kind is asked for.
pub struct ShmRingRegistry {
    fleet_name: String,
    uid: u32,
    capacity: usize,
    index: DashMap<u8, usize>,
    rings: Vec<ShmRing>,
}

impl View for ShmRingRegistry {
    type V = Map<u8, ShmRing>;

    closed spec fn view(&self) -> Map<u8, ShmRing> {
        Map::new(
            |kind: u8| registry::index_contents(self.index).contains_key(kind),
            |kind: u8| self.rings@[registry::index_contents(self.index)[kind] as int],
        )
    }
}

impl ShmRingRegistry {
    pub closed spec fn spec_fleet_name(&self) -> Seq<char> {
        self.fleet_name@
    }

    pub closed spec fn spec_uid(&self) -> u32 {
        self.uid
    }

    pub closed spec fn spec_capacity(&self) -> usize {
        self.capacity
    }

    /// The name of the segment of a kind.
    pub open spec fn segment_name(&self, kind: u8) -> Seq<char> {
        segments::segment_name(self.spec_fleet_name(), kind, self.spec_uid())
    }

    /// Whether the registry still serves the same fleet and user with the same
    /// capacity.
    pub open spec fn serves_as(&self, before: &ShmRingRegistry) -> bool {
        &&& self.spec_fleet_name() == before.spec_fleet_name()
        &&& self.spec_uid() == before.spec_uid()
        &&& self.spec_capacity() == before.spec_capacity()
    }

    /// The index names, for each kind, an attached ring of that kind.
    pub closed spec fn wf(&self) -> bool {
        &&& shm::shm_spec(self.capacity).valid()
        &&& forall|kind: u8| #[trigger]
            registry::index_contents(self.index).contains_key(kind) ==> {
                let at = registry::index_contents(self.index)[kind] as int;
                &&& at < self.rings@.len()
                &&& self.rings@[at].attached()
                &&& self.rings@[at]@.kind == kind
                &&& self.rings@[at]@.spec == shm::shm_spec(self.capacity)
            }
    }

    /// A registry for the segments of user `uid` in a fleet.
    pub fn new(fleet_name: &str, uid: u32, capacity: usize) -> (registry: ShmRingRegistry)
        requires
            shm::shm_spec(capacity).valid(),
        ensures
            registry.wf(),
            registry.spec_fleet_name() == fleet_name@,
            registry.spec_uid() == uid,
            registry.spec_capacity() == capacity,
            registry@ == Map::<u8, ShmRing>::empty(),
    {
        let registry = ShmRingRegistry {
            fleet_name: fleet_name.to_owned(),
            uid,
            capacity,
            index: registry::index_new(),
            rings: Vec::new(),
        };
        proof {
            assert(registry@ =~= Map::<u8, ShmRing>::empty());
        }
        registry
    }

    /// Look up a ring that has been opened.
    pub fn lookup(&self, kind: u8) -> (ring: Option<&ShmRing>)
        requires
            self.wf(),
        ensures
            match ring {
                Some(ring) => {
                    &&& self@.contains_key(kind)
                    &&& *ring == self@[kind]
                    &&& ring.attached()
                    &&& ring@.kind == kind
                    &&& ring@.spec == shm::shm_spec(self.spec_capacity())
                },
                None => !self@.contains_key(kind),
            },
    {
        match registry::index_get(&self.index, kind) {
            Some(at) => Some(&self.rings[at]),
            None => None,
        }
    }

    /// Open the ring of a kind, unless it is open. `existing` is what stands under
    /// the ring's segment name, if anything does; a segment that is refused stays
    /// there.
    pub fn get_or_create_for(&mut self, kind: u8, existing: &mut Option<ShmSegment>) -> (opened:
        Result<(), IoError>)
        requires
            old(self).wf(),
            *old(existing) matches Some(segment) ==> (shm::header_complaint(
                old(self).segment_name(kind),
                segment.spec_header(),
                kind,
                old(self).spec_capacity(),
            ) is None ==> segment.mapped(old(self).spec_capacity())),
        ensures
            final(self).wf(),
            final(self).serves_as(old(self)),
            old(self)@.contains_key(kind) ==> {
                &&& opened is Ok
                &&& final(self)@ == old(self)@
                &&& *final(existing) == *old(existing)
            },
            !old(self)@.contains_key(kind) ==> match opened {
                Ok(_) => {
                    let ring = final(self)@[kind];
                    &&& final(self)@ == old(self)@.insert(kind, ring)
                    &&& shm::opens(
                        old(self).segment_name(kind),
                        kind,
                        old(self).spec_capacity(),
                        *old(existing),
                        *final(existing),
                        Ok(ring),
                    )
                },
                Err(error) => {
                    &&& final(self)@ == old(self)@
                    &&& shm::opens(
                        old(self).segment_name(kind),
                        kind,
                        old(self).spec_capacity(),
                        *old(existing),
                        *final(existing),
                        Err(error),
                    )
                },
            },
    {
        if registry::index_get(&self.index, kind).is_some() {
            return Ok(());
        }
        let name = segments::ring_segment_name(self.fleet_name.as_str(), kind, self.uid);
        match ShmRing::open_or_create(name.as_str(), kind, self.capacity, existing) {
            Ok(ring) => {
                let fresh: usize = self.rings.len();
                let ghost view = ring;
                self.rings.push(ring);
                let _ = registry::index_entry(&mut self.index, kind, fresh);
                proof {
                    assert(self@ =~= old(self)@.insert(kind, view));
                }
                Ok(())
            },
            Err(error) => Err(error),
        }
    }

    /// Append a frame to the ring of a kind that is open.
    pub fn write(&mut self, kind: u8, node_id: NodeId, frame_kind: u8, ver: u64, payload: Bytes) -> (result:
        Option<Result<NetId64, IoError>>)
        requires
            old(self).wf(),
            old(self)@.contains_key(kind) && buf::bytes_contents(payload).len() <= shm::PAYLOAD_MAX
                ==> shm::counter_fits(
                old(self)@[kind].spec_segment().spec_header().write_pos as int,
            ),
        ensures
            final(self).wf(),
            final(self).serves_as(old(self)),
            match result {
                None => !old(self)@.contains_key(kind) && final(self)@ == old(self)@,
                Some(written) => {
                    let ring = final(self)@[kind];
                    &&& old(self)@.contains_key(kind)
                    &&& final(self)@ == old(self)@.insert(kind, ring)
                    &&& shm::writes(
                        old(self)@[kind],
                        ring,
                        written,
                        node_id.spec_get(),
                        frame_kind,
                        ver,
                        buf::bytes_contents(payload),
                    )
                },
            },
    {
        match registry::index_get(&self.index, kind) {
            Some(at) => {
                let ghost before = self.rings@;
                let result = self.rings[at].write(node_id, frame_kind, ver, payload);
                proof {
                    self.lemma_ring_replaced(before, kind, at as int);
                    assert(self@ =~= old(self)@.insert(kind, self.rings@[at as int]));
                }
                Some(result)
            },
            None => None,
        }
    }

    /// Changing one ring leaves what the registry holds under other kinds alone.
    proof fn lemma_ring_replaced(&self, before: Seq<ShmRing>, kind: u8, at: int)
        requires
            forall|other: u8| #[trigger]
                registry::index_contents(self.index).contains_key(other) ==> {
                    let i = registry::index_contents(self.index)[other] as int;
                    &&& i < before.len()
                    &&& before[i]@.kind == other
                },
            registry::index_contents(self.index).contains_key(kind),
            registry::index_contents(self.index)[kind] == at,
            self.rings@ == before.update(at, self.rings@[at]),
        ensures
            forall|other: u8| #[trigger]
                registry::index_contents(self.index).contains_key(other) && other != kind ==> {
                    let i = registry::index_contents(self.index)[other] as int;
                    i != at && self.rings@[i] == before[i]
                },
    {
    }
}

} // verus!
