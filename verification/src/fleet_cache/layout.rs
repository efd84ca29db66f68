use std::marker::PhantomData;

use vstd::prelude::*;

use crate::ring::{RingSpec, RingTopology};
use crate::OrbitTyped;

verus! {

/// Ring kind of cache mutations in the default layout.
pub const CACHE_MUTATION_RING_KIND: u8 = 200;

/// Ring kind of value bytes in the default layout.
pub const CACHE_PAYLOAD_RING_KIND: u8 = 201;

/// The two rings of one cache domain: their stable kinds, their sizes and their
/// topologies. Every fleet peer must use the same layout.
pub trait CacheLayout: Send + Sync + 'static {
    const MUTATION_RING_KIND: u8;

    const MUTATION_RING_CAPACITY: usize;

    const MUTATION_RING_PAYLOAD: usize;

    const MUTATION_RING_TOPOLOGY: RingTopology;

    const PAYLOAD_RING_KIND: u8;

    const PAYLOAD_RING_CAPACITY: usize;

    const PAYLOAD_RING_PAYLOAD: usize;

    const PAYLOAD_RING_TOPOLOGY: RingTopology;
}

/// The layout for applications without a memory or burst budget of their own.
#[derive(Clone, Copy, Debug)]
pub struct DefaultCacheLayout;

impl CacheLayout for DefaultCacheLayout {
    const MUTATION_RING_KIND: u8 = CACHE_MUTATION_RING_KIND;

    const MUTATION_RING_CAPACITY: usize = 1024;

    const MUTATION_RING_PAYLOAD: usize = 1024;

    const MUTATION_RING_TOPOLOGY: RingTopology = RingTopology::PerNode;

    const PAYLOAD_RING_KIND: u8 = CACHE_PAYLOAD_RING_KIND;

    const PAYLOAD_RING_CAPACITY: usize = 1024;

    const PAYLOAD_RING_PAYLOAD: usize = 4096;

    const PAYLOAD_RING_TOPOLOGY: RingTopology = RingTopology::PerNode;
}

/// What the default layout declares.
pub proof fn lemma_default_layout()
    ensures
        DefaultCacheLayout::MUTATION_RING_KIND == CACHE_MUTATION_RING_KIND,
        DefaultCacheLayout::MUTATION_RING_CAPACITY == 1024,
        DefaultCacheLayout::MUTATION_RING_PAYLOAD == 1024,
        DefaultCacheLayout::MUTATION_RING_TOPOLOGY == RingTopology::PerNode,
        DefaultCacheLayout::PAYLOAD_RING_KIND == CACHE_PAYLOAD_RING_KIND,
        DefaultCacheLayout::PAYLOAD_RING_CAPACITY == 1024,
        DefaultCacheLayout::PAYLOAD_RING_PAYLOAD == 4096,
        DefaultCacheLayout::PAYLOAD_RING_TOPOLOGY == RingTopology::PerNode,
{
}

/// The layout of the mutation ring of `L`.
pub open spec fn mutation_spec<L: CacheLayout>() -> RingSpec {
    RingSpec {
        capacity: L::MUTATION_RING_CAPACITY,
        payload_capacity: L::MUTATION_RING_PAYLOAD,
        topology: L::MUTATION_RING_TOPOLOGY,
    }
}

/// The layout of the payload ring of `L`.
pub open spec fn payload_spec<L: CacheLayout>() -> RingSpec {
    RingSpec {
        capacity: L::PAYLOAD_RING_CAPACITY,
        payload_capacity: L::PAYLOAD_RING_PAYLOAD,
        topology: L::PAYLOAD_RING_TOPOLOGY,
    }
}

/// Marker of the mutation ring.
pub struct CacheMutationRecord<L> {
    layout: PhantomData<L>,
}

impl<L> Clone for CacheMutationRecord<L> {
    fn clone(&self) -> (copy: Self) {
        CacheMutationRecord { layout: PhantomData }
    }
}

impl<L: CacheLayout> OrbitTyped for CacheMutationRecord<L> {
    const KIND: u8 = L::MUTATION_RING_KIND;

    const CAPACITY: usize = L::MUTATION_RING_CAPACITY;

    const PAYLOAD_CAPACITY: usize = L::MUTATION_RING_PAYLOAD;

    const TOPOLOGY: RingTopology = L::MUTATION_RING_TOPOLOGY;
}

/// Marker of the payload ring.
pub struct CachePayloadRecord<L> {
    layout: PhantomData<L>,
}

impl<L> Clone for CachePayloadRecord<L> {
    fn clone(&self) -> (copy: Self) {
        CachePayloadRecord { layout: PhantomData }
    }
}

impl<L: CacheLayout> OrbitTyped for CachePayloadRecord<L> {
    const KIND: u8 = L::PAYLOAD_RING_KIND;

    const CAPACITY: usize = L::PAYLOAD_RING_CAPACITY;

    const PAYLOAD_CAPACITY: usize = L::PAYLOAD_RING_PAYLOAD;

    const TOPOLOGY: RingTopology = L::PAYLOAD_RING_TOPOLOGY;
}

/// What the ring markers of a layout declare.
pub proof fn lemma_layout_records<L: CacheLayout>()
    ensures
        CacheMutationRecord::<L>::KIND == L::MUTATION_RING_KIND,
        RingSpec::declared::<CacheMutationRecord<L>>() == mutation_spec::<L>(),
        CachePayloadRecord::<L>::KIND == L::PAYLOAD_RING_KIND,
        RingSpec::declared::<CachePayloadRecord<L>>() == payload_spec::<L>(),
        CacheMutationRecord::<L>::PAYLOAD_CAPACITY == L::MUTATION_RING_PAYLOAD,
        CachePayloadRecord::<L>::PAYLOAD_CAPACITY == L::PAYLOAD_RING_PAYLOAD,
{
}

} // verus!
