//! Fixed-size values over the ring substrate.
//!
//! The most direct way to put a value into the fleet and read the latest from
//! anywhere. A value is the bytes of one fixed-size record: storing publishes
//! them, loading reads the newest frame and takes its bytes if they have the size
//! of the record.

use std::marker::PhantomData;

use bytes::Bytes;
use vstd::prelude::*;

use crate::buf;
use crate::fleet::laws;
use crate::fleet::model::FleetView;
use crate::fleet::Fleet;
use crate::id;
use crate::id::NetId64;
use crate::ring::{Frame, FrameView, RingSpec};
use crate::OrbitTyped;

verus! {

/// Handle on the fleet's ring for records of `T`. Handles of the same `T` share
/// the ring.
pub struct Orbital<T: OrbitTyped> {
    record_len: usize,
    record: PhantomData<T>,
}

/// The bytes of a record of `len` bytes that a frame carries.
pub open spec fn record_of(frame: Option<FrameView>, len: usize) -> Option<Seq<u8>> {
    match frame {
        Some(frame) => if frame.payload.len() == len {
            Some(frame.payload)
        } else {
            None
        },
        None => None,
    }
}

/// The value of a loaded record.
pub open spec fn loaded(record: Option<Bytes>) -> Option<Seq<u8>> {
    match record {
        Some(bytes) => Some(buf::bytes_contents(bytes)),
        None => None,
    }
}

fn take_record(frame: Option<Frame>, len: usize) -> (record: Option<Bytes>)
    ensures
        loaded(record) == record_of(crate::ring::slot_view(frame), len),
{
    match frame {
        Some(frame) => {
            if buf::bytes_as_slice(&frame.payload).len() == len {
                Some(frame.payload)
            } else {
                None
            }
        },
        None => None,
    }
}

impl<T: OrbitTyped> Orbital<T> {
    /// Bytes of one record.
    pub closed spec fn spec_record_len(&self) -> usize {
        self.record_len
    }

    /// Bind to the ring of `T` for records of `record_len` bytes.
    pub fn new(record_len: usize) -> (orbital: Orbital<T>)
        ensures
            orbital.spec_record_len() == record_len,
    {
        Orbital { record_len, record: PhantomData }
    }

    /// Publish a new record and return the identifier minted for it.
    pub fn store(&self, fleet: &mut Fleet, record: &[u8]) -> (id: NetId64)
        requires
            old(fleet).wf(),
            old(fleet)@.has_room(T::KIND, RingSpec::declared::<T>(), 1),
            record@.len() <= T::PAYLOAD_CAPACITY,
        ensures
            final(fleet).wf(),
            id == NetId64::minted(
                T::KIND,
                old(fleet)@.node,
                old(fleet)@.home(T::KIND, RingSpec::declared::<T>()).head(),
            ),
            final(fleet)@ == old(fleet)@.published(
                T::KIND,
                RingSpec::declared::<T>(),
                0,
                0,
                record@,
            ),
    {
        let payload = buf::bytes_from_slice(record);
        fleet.publish::<T>(0, 0, payload)
    }

    /// Read the most recent record. Nothing where no write has happened yet, or
    /// where the most recent frame does not have the size of a record.
    pub fn load(&self, fleet: &Fleet) -> (record: Option<Bytes>)
        requires
            fleet.wf(),
            fleet@.compatible(T::KIND, RingSpec::declared::<T>()),
        ensures
            loaded(record) == record_of(
                fleet@.home(T::KIND, RingSpec::declared::<T>()).latest(),
                self.spec_record_len(),
            ),
    {
        take_record(fleet.read_head::<T>(), self.record_len)
    }

    /// Read the record with a given identifier, while the ring still holds it.
    pub fn load_by_id(&self, fleet: &Fleet, id: NetId64) -> (record: Option<Bytes>)
        requires
            fleet.wf(),
        ensures
            loaded(record) == record_of(fleet@.found(id), self.spec_record_len()),
    {
        take_record(fleet.read(id), self.record_len)
    }
}

/// What a load gives back of a store: the record itself, as the latest and under
/// its identifier.
pub proof fn law_load_returns_the_store(
    fleet: FleetView,
    kind: u8,
    spec: RingSpec,
    record: Seq<u8>,
    len: usize,
)
    requires
        fleet.consistent(),
        fleet.compatible(kind, spec),
        spec.capacity <= id::COUNTER_SPAN || fleet.home(kind, spec).head() < id::COUNTER_SPAN,
        record.len() == len,
    ensures
        record_of(fleet.published(kind, spec, 0, 0, record).home(kind, spec).latest(), len) == Some(
            record,
        ),
        record_of(
            fleet.published(kind, spec, 0, 0, record).found(
                NetId64::minted(kind, fleet.node, fleet.home(kind, spec).head()),
            ),
            len,
        ) == Some(record),
{
    laws::law_a_publish_is_read_back(fleet, kind, spec, 0, 0, record);
}

/// A record has its size: a frame is loaded as a record exactly where its payload has
/// that many bytes, and then the record is the payload.
pub proof fn law_only_whole_records_are_loaded(frame: FrameView, len: usize)
    ensures
        frame.payload.len() == len ==> record_of(Some(frame), len) == Some(frame.payload),
        frame.payload.len() != len ==> record_of(Some(frame), len) is None,
        record_of(None, len) is None,
{
}

} // verus!
