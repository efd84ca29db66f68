//! Ring buffers: fixed-capacity circular logs of frames.
//!
//! A writer appends; the position of the write is the counter of the minted
//! identifier, and the frame lands in slot `counter % capacity`. Once the log is
//! longer than the capacity, each write replaces the oldest retained frame, and
//! a reader that asks for it finds it missing.
//!
//! A ring is modelled by the log of everything written since the last reset.
//! What a slot holds is the newest log entry that belongs to it.

use bytes::Bytes;
use vstd::prelude::*;

use crate::buf;
use crate::id;
use crate::id::NetId64;
use crate::node::NodeId;
use crate::OrbitTyped;

pub mod cursor;
pub mod registry;
pub mod shm;
pub mod shm_registry;

use cursor::{RingFrameSource, RingLoss, RingPollView, RingRead, RingReadView};

verus! {

/// How writers publish into a ring.
#[derive(Clone, Copy, Debug, PartialEq, Eq, Structural)]
pub enum RingTopology {
    /// One lane with one reservation counter for all writers.
    Shared,
    /// One lane per member, each with its own counter.
    PerNode,
    /// One lane in one total order; the head moves after the slot commits.
    SharedOrdered,
}

/// Physical layout of one ring.
#[derive(Clone, Copy, Debug, PartialEq, Eq, Structural)]
pub struct RingSpec {
    /// Number of slots retained by each lane.
    pub capacity: usize,
    /// Maximum payload bytes stored in each slot.
    pub payload_capacity: usize,
    /// How writers publish.
    pub topology: RingTopology,
}

/// Whether `n` is a power of two.
pub open spec fn power_of_two(n: int) -> bool {
    vstd::arithmetic::power2::is_pow2(n)
}

fn is_power_of_two(n: usize) -> (yes: bool)
    ensures
        yes == power_of_two(n as int),
{
    reveal(vstd::arithmetic::power2::is_pow2);
    if n == 0 {
        return false;
    }
    let mut rest: usize = n;
    while rest % 2 == 0
        invariant
            rest > 0,
            power_of_two(n as int) == power_of_two(rest as int),
        decreases rest,
    {
        proof {
            reveal(vstd::arithmetic::power2::is_pow2);
        }
        rest = rest / 2;
    }
    rest == 1
}

impl RingSpec {
    /// The layout that `T` declares.
    pub open spec fn declared<T: OrbitTyped>() -> RingSpec {
        RingSpec {
            capacity: T::CAPACITY,
            payload_capacity: T::PAYLOAD_CAPACITY,
            topology: T::TOPOLOGY,
        }
    }

    /// A layout that a ring can have: a power of two as capacity, and payloads
    /// whose length fits in 32 bits and in one allocation.
    pub open spec fn valid(self) -> bool {
        &&& self.capacity > 0
        &&& power_of_two(self.capacity as int)
        &&& self.payload_capacity <= u32::MAX
        &&& self.payload_capacity <= isize::MAX
    }

    /// One shared lane.
    pub fn new(capacity: usize, payload_capacity: usize) -> (spec: RingSpec)
        ensures
            spec == (RingSpec { capacity, payload_capacity, topology: RingTopology::Shared }),
    {
        RingSpec { capacity, payload_capacity, topology: RingTopology::Shared }
    }

    /// One lane per member.
    pub fn per_node(capacity: usize, payload_capacity: usize) -> (spec: RingSpec)
        ensures
            spec == (RingSpec { capacity, payload_capacity, topology: RingTopology::PerNode }),
    {
        RingSpec { capacity, payload_capacity, topology: RingTopology::PerNode }
    }

    /// One totally ordered lane.
    pub fn shared_ordered(capacity: usize, payload_capacity: usize) -> (spec: RingSpec)
        ensures
            spec == (RingSpec {
                capacity,
                payload_capacity,
                topology: RingTopology::SharedOrdered,
            }),
    {
        RingSpec { capacity, payload_capacity, topology: RingTopology::SharedOrdered }
    }

    /// The layout that `T` declares.
    pub fn of<T: OrbitTyped>() -> (spec: RingSpec)
        ensures
            spec == RingSpec::declared::<T>(),
    {
        RingSpec {
            capacity: T::CAPACITY,
            payload_capacity: T::PAYLOAD_CAPACITY,
            topology: T::TOPOLOGY,
        }
    }

    /// Whether a ring can have this layout.
    pub fn is_valid(self) -> (yes: bool)
        ensures
            yes == self.valid(),
    {
        self.capacity > 0 && is_power_of_two(self.capacity) && self.payload_capacity
            <= u32::MAX as usize && self.payload_capacity <= isize::MAX as usize
    }
}

/// One record in a ring.
#[derive(Clone, Debug, PartialEq, Eq)]
pub struct Frame {
    /// The identifier minted by the write.
    pub id: NetId64,
    /// The message class inside the ring.
    pub kind: u8,
    /// Version or tick chosen by the writer.
    pub ver: u64,
    /// Payload bytes.
    pub payload: Bytes,
}

/// What a frame holds, as values.
#[verifier::ext_equal]
pub struct FrameView {
    pub id: NetId64,
    pub kind: u8,
    pub ver: u64,
    pub payload: Seq<u8>,
}

impl View for Frame {
    type V = FrameView;

    open spec fn view(&self) -> FrameView {
        FrameView {
            id: self.id,
            kind: self.kind,
            ver: self.ver,
            payload: buf::bytes_contents(self.payload),
        }
    }
}

impl Frame {
    /// Another handle on the same frame.
    pub fn copy(&self) -> (copy: Frame)
        ensures
            copy@ == self@,
    {
        Frame {
            id: self.id,
            kind: self.kind,
            ver: self.ver,
            payload: self.payload.clone(),
        }
    }
}

/// The value of a slot or of a lookup.
pub open spec fn slot_view(slot: Option<Frame>) -> Option<FrameView> {
    match slot {
        Some(frame) => Some(frame@),
        None => None,
    }
}

/// The newest entry of `log` that belongs to the slot of `counter` in a ring of
/// `capacity` slots.
pub open spec fn newest_in_slot(log: Seq<FrameView>, capacity: nat, counter: nat) -> Option<
    FrameView,
>
    decreases log.len(),
{
    if log.len() == 0 {
        None
    } else if (log.len() - 1) as nat % capacity == counter % capacity {
        Some(log.last())
    } else {
        newest_in_slot(log.drop_last(), capacity, counter)
    }
}

/// A ring as a value: its kind, its layout and everything written since the
/// last reset.
#[verifier::ext_equal]
pub struct RingView {
    pub kind: u8,
    pub spec: RingSpec,
    pub log: Seq<FrameView>,
}

impl RingView {
    /// An empty ring.
    pub open spec fn fresh(kind: u8, spec: RingSpec) -> RingView {
        RingView { kind, spec, log: Seq::empty() }
    }

    /// Number of writes since the last reset.
    pub open spec fn head(self) -> nat {
        self.log.len()
    }

    /// The oldest counter that the ring still retains.
    pub open spec fn floor(self) -> nat {
        if self.head() <= self.spec.capacity {
            0
        } else {
            (self.head() - self.spec.capacity) as nat
        }
    }

    /// What the slot of `counter` holds.
    pub open spec fn occupant(self, counter: nat) -> Option<FrameView> {
        newest_in_slot(self.log, self.spec.capacity as nat, counter)
    }

    /// The frame with exactly this identifier, while its slot holds it.
    pub open spec fn lookup(self, id: NetId64) -> Option<FrameView> {
        if id.spec_kind() != self.kind {
            None
        } else {
            match self.occupant(id.spec_counter() as nat) {
                Some(frame) => if frame.id == id {
                    Some(frame)
                } else {
                    None
                },
                None => None,
            }
        }
    }

    /// The most recent frame.
    pub open spec fn latest(self) -> Option<FrameView> {
        if self.log.len() == 0 {
            None
        } else {
            Some(self.log.last())
        }
    }

    /// How the position `counter` reads.
    pub open spec fn state_at(self, counter: u64) -> RingReadView {
        match self.occupant(counter as nat) {
            Some(frame) => if frame.id.spec_counter() == counter {
                RingReadView::Ready(frame)
            } else if frame.id.spec_counter() > counter {
                RingReadView::Unavailable
            } else {
                RingReadView::Pending
            },
            None => RingReadView::Pending,
        }
    }

    /// The frame that the next write of `node` produces.
    pub open spec fn next_frame(self, node: u16, frame_kind: u8, ver: u64, payload: Seq<u8>) -> FrameView {
        FrameView { id: NetId64::minted(self.kind, node, self.head()), kind: frame_kind, ver, payload }
    }

    /// The ring after one write.
    pub open spec fn appended(self, node: u16, frame_kind: u8, ver: u64, payload: Seq<u8>) -> RingView {
        RingView { log: self.log.push(self.next_frame(node, frame_kind, ver, payload)), ..self }
    }

    /// The retained frames, oldest first.
    pub open spec fn retained(self) -> Seq<Option<FrameView>> {
        Seq::new(
            (self.head() - self.floor()) as nat,
            |i: int| Some(self.log[self.floor() + i]),
        )
    }

    /// The outcome of a poll from `next`.
    pub open spec fn polled(self, next: u64) -> RingPollView {
        cursor::walk::polled(
            self.kind,
            self.head() as u64,
            self.spec.capacity,
            |counter: u64| self.state_at(counter),
            next,
        )
    }

    /// Every log entry carries the identifier of its position and fits a slot.
    pub open spec fn consistent(self) -> bool {
        &&& self.spec.valid()
        &&& forall|i: int|
            0 <= i < self.log.len() ==> {
                let frame = #[trigger] self.log[i];
                &&& frame.id.spec_kind() == self.kind
                &&& frame.id.spec_counter() == i % (id::COUNTER_SPAN as int)
                &&& frame.payload.len() <= self.spec.payload_capacity
            }
    }
}

/// A fixed-capacity circular log of frames of one kind.
pub struct Ring {
    kind: u8,
    capacity: usize,
    payload_capacity: usize,
    topology: RingTopology,
    write_pos: u64,
    slots: Vec<Option<Frame>>,
    log: Ghost<Seq<FrameView>>,
}

impl View for Ring {
    type V = RingView;

    closed spec fn view(&self) -> RingView {
        RingView {
            kind: self.kind,
            spec: RingSpec {
                capacity: self.capacity,
                payload_capacity: self.payload_capacity,
                topology: self.topology,
            },
            log: self.log@,
        }
    }
}

impl Ring {
    /// The slots hold what the log says, and the head counts the log.
    pub closed spec fn wf(&self) -> bool {
        &&& self@.consistent()
        &&& self.slots.len() == self.capacity
        &&& self.write_pos == self.log@.len()
        &&& forall|i: int|
            0 <= i < self.slots.len() ==> slot_view(#[trigger] self.slots@[i]) == newest_in_slot(
                self.log@,
                self.capacity as nat,
                i as nat,
            )
    }

    /// What the representation says of the value.
    pub proof fn lemma_wf_consistent(&self)
        requires
            self.wf(),
        ensures
            self@.consistent(),
            self@.head() <= u64::MAX,
    {
    }

    /// Create the ring that `T` declares.
    pub fn new<T: OrbitTyped>() -> (ring: Ring)
        requires
            RingSpec::declared::<T>().valid(),
        ensures
            ring.wf(),
            ring@ == RingView::fresh(T::KIND, RingSpec::declared::<T>()),
    {
        Ring::with_spec(T::KIND, RingSpec::of::<T>())
    }

    /// Create a ring with an explicit kind and layout.
    pub fn with_spec(kind: u8, spec: RingSpec) -> (ring: Ring)
        requires
            spec.valid(),
        ensures
            ring.wf(),
            ring@ == RingView::fresh(kind, spec),
    {
        let capacity: usize = spec.capacity;
        let mut slots: Vec<Option<Frame>> = Vec::with_capacity(capacity);
        let mut i: usize = 0;
        while i < capacity
            invariant
                i <= capacity,
                slots.len() == i,
                forall|j: int| 0 <= j < i ==> #[trigger] slots@[j] is None,
            decreases capacity - i,
        {
            slots.push(None);
            i = i + 1;
        }
        Ring {
            kind,
            capacity,
            payload_capacity: spec.payload_capacity,
            topology: spec.topology,
            write_pos: 0,
            slots,
            log: Ghost(Seq::empty()),
        }
    }

    /// The kind this ring carries.
    pub fn kind(&self) -> (kind: u8)
        ensures
            kind == self@.kind,
    {
        self.kind
    }

    /// Total slot count.
    pub fn capacity(&self) -> (capacity: usize)
        ensures
            capacity == self@.spec.capacity,
    {
        self.capacity
    }

    /// Maximum payload bytes of one frame.
    pub fn payload_capacity(&self) -> (payload_capacity: usize)
        ensures
            payload_capacity == self@.spec.payload_capacity,
    {
        self.payload_capacity
    }

    /// The layout of this ring.
    pub fn spec(&self) -> (spec: RingSpec)
        ensures
            spec == self@.spec,
    {
        RingSpec {
            capacity: self.capacity,
            payload_capacity: self.payload_capacity,
            topology: self.topology,
        }
    }

    /// Number of counters handed out to writers.
    pub fn head(&self) -> (head: u64)
        requires
            self.wf(),
        ensures
            head == self@.head(),
    {
        self.write_pos
    }

    /// Append a frame and return the identifier minted for it.
    pub fn write(&mut self, node_id: NodeId, frame_kind: u8, ver: u64, payload: Bytes) -> (minted: NetId64)
        requires
            old(self).wf(),
            buf::bytes_contents(payload).len() <= old(self)@.spec.payload_capacity,
            old(self)@.head() < u64::MAX,
        ensures
            final(self).wf(),
            minted == NetId64::minted(old(self)@.kind, node_id.spec_get(), old(self)@.head()),
            final(self)@ == old(self)@.appended(
                node_id.spec_get(),
                frame_kind,
                ver,
                buf::bytes_contents(payload),
            ),
    {
        let counter: u64 = self.write_pos;
        let minted = NetId64::make(self.kind, node_id.get(), counter);
        let slot_idx: usize = (counter % (self.capacity as u64)) as usize;
        let frame = Frame { id: minted, kind: frame_kind, ver, payload };
        let ghost before = self@;
        let ghost written = frame@;
        self.slots.set(slot_idx, Some(frame));
        self.write_pos = counter + 1;
        self.log = Ghost(self.log@.push(written));
        proof {
            let capacity = self.capacity as nat;
            assert(self.log@.drop_last() =~= before.log);
            assert forall|i: int| 0 <= i < self.slots.len() implies slot_view(
                #[trigger] self.slots@[i],
            ) == newest_in_slot(self.log@, capacity, i as nat) by {
                assert(i as nat % capacity == i) by {
                    vstd::arithmetic::div_mod::lemma_small_mod(i as nat, capacity);
                }
                if i != slot_idx {
                    assert(slot_view(old(self).slots@[i]) == newest_in_slot(
                        before.log,
                        capacity,
                        i as nat,
                    ));
                }
            }
            assert forall|i: int| 0 <= i < self@.log.len() implies {
                let frame = #[trigger] self@.log[i];
                &&& frame.id.spec_kind() == self@.kind
                &&& frame.id.spec_counter() == i % (id::COUNTER_SPAN as int)
                &&& frame.payload.len() <= self@.spec.payload_capacity
            } by {
                if i < before.log.len() {
                    assert(self@.log[i] == before.log[i]);
                }
            }
        }
        minted
    }

    /// Read the frame with exactly this identifier. It is missing where the slot
    /// is empty or a later write has replaced it.
    pub fn read(&self, id: NetId64) -> (frame: Option<Frame>)
        requires
            self.wf(),
        ensures
            slot_view(frame) == self@.lookup(id),
    {
        if id.kind() != self.kind {
            return None;
        }
        let frame = self.read_at(id.counter());
        match frame {
            Some(frame) => {
                if frame.id == id {
                    Some(frame)
                } else {
                    None
                }
            },
            None => None,
        }
    }

    /// Read the most recent frame, whoever wrote it.
    pub fn read_head(&self) -> (frame: Option<Frame>)
        requires
            self.wf(),
        ensures
            slot_view(frame) == self@.latest(),
    {
        if self.write_pos == 0 {
            return None;
        }
        self.read_at(self.write_pos - 1)
    }

    /// Read whatever frame occupies the slot of `counter`.
    pub fn read_at(&self, counter: u64) -> (frame: Option<Frame>)
        requires
            self.wf(),
        ensures
            slot_view(frame) == self@.occupant(counter as nat),
    {
        let slot_idx: usize = (counter % (self.capacity as u64)) as usize;
        proof {
            let capacity = self.capacity as nat;
            assert(slot_idx as nat % capacity == counter as nat % capacity) by {
                vstd::arithmetic::div_mod::lemma_small_mod(slot_idx as nat, capacity);
            }
            lemma_same_slot(self.log@, capacity, slot_idx as nat, counter as nat);
        }
        match &self.slots[slot_idx] {
            Some(frame) => Some(frame.copy()),
            None => None,
        }
    }

    /// Classify the position `counter`.
    pub fn read_state_at(&self, counter: u64) -> (state: RingRead)
        requires
            self.wf(),
        ensures
            state@ == self@.state_at(counter),
    {
        match self.read_at(counter) {
            Some(frame) => {
                let found: u64 = frame.id.counter();
                if found == counter {
                    RingRead::Ready(frame)
                } else if found > counter {
                    RingRead::Unavailable
                } else {
                    RingRead::Pending
                }
            },
            None => RingRead::Pending,
        }
    }

    /// Clear all slots and set the head back to zero.
    pub fn reset(&mut self)
        requires
            old(self).wf(),
        ensures
            final(self).wf(),
            final(self)@ == RingView::fresh(old(self)@.kind, old(self)@.spec),
    {
        let ghost spec = self@.spec;
        let mut i: usize = 0;
        while i < self.slots.len()
            invariant
                i <= self.slots.len(),
                self.slots.len() == self.capacity,
                forall|j: int| 0 <= j < i ==> #[trigger] self.slots@[j] is None,
                self.capacity == old(self).capacity,
                self.payload_capacity == old(self).payload_capacity,
                self.topology == old(self).topology,
                self.kind == old(self).kind,
            decreases self.slots.len() - i,
        {
            self.slots.set(i, None);
            i = i + 1;
        }
        self.write_pos = 0;
        self.log = Ghost(Seq::empty());
    }
}

/// Counters that share a slot see the same occupant.
pub proof fn lemma_same_slot(log: Seq<FrameView>, capacity: nat, a: nat, b: nat)
    requires
        a % capacity == b % capacity,
    ensures
        newest_in_slot(log, capacity, a) == newest_in_slot(log, capacity, b),
    decreases log.len(),
{
    if log.len() > 0 {
        lemma_same_slot(log.drop_last(), capacity, a, b);
    }
}

/// Positions less than one capacity apart lie in different slots.
pub proof fn lemma_distinct_slots(a: nat, b: nat, capacity: nat)
    requires
        capacity > 0,
        a < b < a + capacity,
    ensures
        a % capacity != b % capacity,
{
    if a % capacity == b % capacity {
        vstd::arithmetic::div_mod::lemma_fundamental_div_mod(a as int, capacity as int);
        vstd::arithmetic::div_mod::lemma_fundamental_div_mod(b as int, capacity as int);
        let q = b as int / capacity as int - a as int / capacity as int;
        assert(b - a == capacity * q) by (nonlinear_arith)
            requires
                a as int == capacity * (a as int / capacity as int) + a as int % capacity as int,
                b as int == capacity * (b as int / capacity as int) + b as int % capacity as int,
                a % capacity == b % capacity,
                q == b as int / capacity as int - a as int / capacity as int,
        ;
        assert(q >= 1 || q <= 0);
        assert(q >= 1 ==> capacity * q >= capacity) by (nonlinear_arith)
            requires
                capacity > 0,
        ;
        assert(q <= 0 ==> capacity * q <= 0) by (nonlinear_arith)
            requires
                capacity > 0,
        ;
    }
}

/// A slot holds the retained position that belongs to it.
pub proof fn lemma_newest_of_retained(log: Seq<FrameView>, capacity: nat, counter: nat)
    requires
        capacity > 0,
        counter < log.len() <= counter + capacity,
    ensures
        newest_in_slot(log, capacity, counter) == Some(log[counter as int]),
    decreases log.len(),
{
    if counter != log.len() - 1 {
        lemma_distinct_slots(counter, (log.len() - 1) as nat, capacity);
        lemma_newest_of_retained(log.drop_last(), capacity, counter);
    }
}

proof fn lemma_newest_is_later(log: Seq<FrameView>, capacity: nat, counter: nat) -> (at: int)
    requires
        capacity > 0,
        counter + capacity <= log.len() - 1,
    ensures
        counter + capacity <= at < log.len(),
        newest_in_slot(log, capacity, counter) == Some(log[at]),
    decreases log.len(),
{
    if (log.len() - 1) as nat % capacity == counter % capacity {
        log.len() - 1
    } else {
        if log.len() - 1 == counter + capacity {
            vstd::arithmetic::div_mod::lemma_mod_add_multiples_vanish(counter as int, capacity as int);
            assert(false);
        }
        lemma_newest_is_later(log.drop_last(), capacity, counter)
    }
}

proof fn lemma_newest_is_entry(log: Seq<FrameView>, capacity: nat, counter: nat)
    ensures
        newest_in_slot(log, capacity, counter) matches Some(frame) ==> exists|at: int|
            0 <= at < log.len() && frame == #[trigger] log[at] && at % (capacity as int)
                == counter % capacity,
    decreases log.len(),
{
    if log.len() > 0 && (log.len() - 1) as nat % capacity != counter % capacity {
        lemma_newest_is_entry(log.drop_last(), capacity, counter);
        if let Some(frame) = newest_in_slot(log.drop_last(), capacity, counter) {
            let at = choose|at: int|
                0 <= at < log.drop_last().len() && frame == #[trigger] log.drop_last()[at] && at % (
                capacity as int) == counter % capacity;
            assert(log[at] == frame);
        }
    } else if log.len() > 0 {
        assert(log[log.len() - 1] == log.last());
    }
}

/// A frame stays readable, unchanged, until `capacity` later writes have
/// happened: reading any retained position gives what was written there.
pub proof fn law_retained_frames_are_readable(ring: RingView, counter: nat)
    requires
        ring.consistent(),
        ring.floor() <= counter < ring.head(),
    ensures
        ring.occupant(counter) == Some(ring.log[counter as int]),
        counter < id::COUNTER_SPAN ==> ring.lookup(ring.log[counter as int].id) == Some(
            ring.log[counter as int],
        ),
        counter < id::COUNTER_SPAN ==> ring.state_at(counter as u64) == RingReadView::Ready(
            ring.log[counter as int],
        ),
{
    let capacity = ring.spec.capacity as nat;
    lemma_newest_of_retained(ring.log, capacity, counter);
    if counter < id::COUNTER_SPAN {
        vstd::arithmetic::div_mod::lemma_small_mod(counter, id::COUNTER_SPAN as nat);
    }
}

/// A window of a ring shows its retained frames.
pub proof fn lemma_window_of_ring(ring: &Ring)
    requires
        ring.wf(),
    ensures
        cursor::source::window(ring) == ring@.retained(),
{
    let window = cursor::source::window(ring);
    assert forall|i: int| 0 <= i < window.len() implies #[trigger] window[i]
        == ring@.retained()[i] by {
        lemma_newest_of_retained(
            ring@.log,
            ring@.spec.capacity as nat,
            (ring@.floor() + i) as nat,
        );
    }
    assert(window =~= ring@.retained());
}

/// A position that has left the retained window is never misread: a lookup of
/// its identifier gives nothing, and the position reads as unavailable.
pub proof fn law_overwritten_frames_are_missing(ring: RingView, counter: nat)
    requires
        ring.consistent(),
        counter < ring.floor(),
        ring.head() <= id::COUNTER_SPAN,
    ensures
        ring.lookup(ring.log[counter as int].id) is None,
        ring.state_at(counter as u64) == RingReadView::Unavailable,
{
    let capacity = ring.spec.capacity as nat;
    let at = lemma_newest_is_later(ring.log, capacity, counter);
    vstd::arithmetic::div_mod::lemma_small_mod(counter, id::COUNTER_SPAN as nat);
    vstd::arithmetic::div_mod::lemma_small_mod(at as nat, id::COUNTER_SPAN as nat);
    assert(ring.log[counter as int].id.spec_counter() == counter);
    assert(ring.log[at].id.spec_counter() == at);
}

/// A position at or beyond the head is pending: nothing has been written there.
pub proof fn law_unwritten_positions_are_pending(ring: RingView, counter: nat)
    requires
        ring.consistent(),
        ring.head() <= counter < id::COUNTER_SPAN,
    ensures
        ring.state_at(counter as u64) == RingReadView::Pending,
{
    let capacity = ring.spec.capacity as nat;
    lemma_newest_is_entry(ring.log, capacity, counter);
    if let Some(frame) = ring.occupant(counter) {
        let at = choose|at: int|
            0 <= at < ring.log.len() && frame == #[trigger] ring.log[at] && at % (capacity as int)
                == counter % capacity;
        vstd::arithmetic::div_mod::lemma_small_mod(at as nat, id::COUNTER_SPAN as nat);
        assert(ring.log[at].id.spec_counter() == at);
    }
}

/// Read your write: the identifier that a write returns reads back the frame.
pub proof fn law_read_your_write(ring: RingView, node: u16, frame_kind: u8, ver: u64, payload: Seq<u8>)
    requires
        ring.consistent(),
        ring.spec.capacity <= id::COUNTER_SPAN || ring.head() < id::COUNTER_SPAN,
    ensures
        ring.appended(node, frame_kind, ver, payload).lookup(
            NetId64::minted(ring.kind, node, ring.head()),
        ) == Some(ring.next_frame(node, frame_kind, ver, payload)),
        ring.appended(node, frame_kind, ver, payload).latest() == Some(
            ring.next_frame(node, frame_kind, ver, payload),
        ),
{
    let after = ring.appended(node, frame_kind, ver, payload);
    let minted = NetId64::minted(ring.kind, node, ring.head());
    id::lemma_minted_fields(ring.kind, node, ring.head());
    if ring.spec.capacity <= id::COUNTER_SPAN {
        lemma_counter_keeps_slot(ring.head(), ring.spec.capacity as nat);
    }
    assert(after.log.last() == ring.next_frame(node, frame_kind, ver, payload));
}

proof fn lemma_walk_of_log(ring: RingView, from: nat, to: nat)
    requires
        ring.consistent(),
        ring.head() <= id::COUNTER_SPAN,
        ring.floor() <= from <= to <= ring.head(),
    ensures
        cursor::walk::walk_end(
            |counter: u64| ring.state_at(counter),
            from as int,
            ring.head() as int,
        ) == ring.head(),
        cursor::walk::walk_frames(
            |counter: u64| ring.state_at(counter),
            ring.kind,
            from as int,
            to as int,
        ) == ring.log.subrange(from as int, to as int),
    decreases ring.head() - from, to - from,
{
    let states = |counter: u64| ring.state_at(counter);
    if from < ring.head() {
        law_retained_frames_are_readable(ring, from);
        lemma_walk_of_log(ring, from + 1, ring.head());
        assert(states(from as u64) == ring.state_at(from as u64));
    }
    if from < to {
        let last = (to - 1) as nat;
        lemma_walk_of_log(ring, from, last);
        law_retained_frames_are_readable(ring, last);
        vstd::arithmetic::div_mod::lemma_small_mod(last, id::COUNTER_SPAN as nat);
        assert(states(last as u64) == ring.state_at(last as u64));
        assert(ring.log.subrange(from as int, to as int) =~= ring.log.subrange(
            from as int,
            last as int,
        ) + seq![ring.log[last as int]]);
    } else {
        assert(ring.log.subrange(from as int, to as int) =~= seq![]);
    }
}

/// A subscriber that polls receives every retained write since its position, in
/// order, and learns exactly how many older writes it missed.
pub proof fn law_poll_delivers_the_retained_log(ring: RingView, next: u64)
    requires
        ring.consistent(),
        ring.head() <= id::COUNTER_SPAN,
        next <= ring.head(),
    ensures
        ({
            let start: int = if next < ring.floor() {
                ring.floor() as int
            } else {
                next as int
            };
            ring.polled(next) == (RingPollView {
                frames: ring.log.subrange(start, ring.head() as int),
                loss: RingLoss { overwritten: (start - next) as u64, unavailable: 0 },
                from_counter: next,
                to_counter: ring.head() as u64,
            })
        }),
{
    let start: int = if next < ring.floor() {
        ring.floor() as int
    } else {
        next as int
    };
    lemma_walk_of_log(ring, start as nat, ring.head());
    if next == ring.head() {
        assert(ring.log.subrange(start, ring.head() as int) =~= seq![]);
    }
}

impl RingFrameSource for Ring {
    open spec fn source_wf(&self) -> bool {
        self.wf()
    }

    open spec fn source_kind(&self) -> u8 {
        self@.kind
    }

    open spec fn source_head(&self) -> u64 {
        self@.head() as u64
    }

    open spec fn source_capacity(&self) -> usize {
        self@.spec.capacity
    }

    open spec fn source_read_at(&self, counter: u64) -> Option<FrameView> {
        self@.occupant(counter as nat)
    }

    open spec fn source_state_at(&self, counter: u64) -> RingReadView {
        self@.state_at(counter)
    }

    fn kind(&self) -> (kind: u8) {
        Ring::kind(self)
    }

    fn head(&self) -> (head: u64) {
        Ring::head(self)
    }

    fn capacity(&self) -> (capacity: usize) {
        Ring::capacity(self)
    }

    fn read_at(&self, counter: u64) -> (frame: Option<Frame>) {
        Ring::read_at(self, counter)
    }

    fn read_state_at(&self, counter: u64) -> (state: RingRead) {
        Ring::read_state_at(self, counter)
    }
}

/// A power of two divides every larger one.
proof fn lemma_power_divides(small: int, large: int)
    requires
        power_of_two(small),
        power_of_two(large),
        small <= large,
    ensures
        large % small == 0,
    decreases small,
{
    reveal(vstd::arithmetic::power2::is_pow2);
    if small > 1 {
        lemma_power_divides(small / 2, large / 2);
        let half_small = small / 2;
        let half_large = large / 2;
        let q = half_large / half_small;
        assert(half_large == half_small * q) by {
            vstd::arithmetic::div_mod::lemma_fundamental_div_mod(half_large, half_small);
        }
        assert(large == q * small) by (nonlinear_arith)
            requires
                large == 2 * half_large,
                small == 2 * half_small,
                half_large == half_small * q,
        ;
        vstd::arithmetic::div_mod::lemma_mod_multiples_basic(q, small);
    }
}

/// Cutting a position to the counter field does not move it to another slot.
pub proof fn lemma_counter_keeps_slot(counter: nat, capacity: nat)
    requires
        power_of_two(capacity as int),
        capacity <= id::COUNTER_SPAN,
    ensures
        (counter % (id::COUNTER_SPAN as nat)) % capacity == counter % capacity,
{
    reveal(vstd::arithmetic::power2::is_pow2);
    let span = id::COUNTER_SPAN as int;
    assert(power_of_two(span)) by {
        reveal_with_fuel(vstd::arithmetic::power2::is_pow2, 42);
    }
    lemma_power_divides(capacity as int, span);
    let q = counter as int / span;
    let r = counter as int % span;
    let k = span / capacity as int;
    vstd::arithmetic::div_mod::lemma_fundamental_div_mod(counter as int, span);
    vstd::arithmetic::div_mod::lemma_fundamental_div_mod(span, capacity as int);
    assert(counter as int == capacity as int * (q * k) + r) by (nonlinear_arith)
        requires
            counter as int == span * q + r,
            span == capacity as int * k,
    ;
    vstd::arithmetic::div_mod::lemma_mod_multiples_vanish(q * k, r, capacity as int);
}

/// A slot holds its newest write: of all positions that share the slot of `counter`, the
/// last one written, and nothing where none has been.
pub proof fn law_a_slot_holds_its_newest_write(ring: RingView, counter: nat, at: int)
    requires
        ring.consistent(),
    ensures
        0 <= at < ring.log.len() && at % (ring.spec.capacity as int) == counter as int % (
        ring.spec.capacity as int) && ring.log.len() <= at + ring.spec.capacity ==> ring.occupant(
            counter,
        ) == Some(ring.log[at]),
        (forall|i: int|
            0 <= i < ring.log.len() ==> #[trigger] (i % (ring.spec.capacity as int)) != counter as int
                % (ring.spec.capacity as int)) ==> ring.occupant(counter) is None,
{
    let capacity = ring.spec.capacity as nat;
    if 0 <= at < ring.log.len() && at % (capacity as int) == counter as int % (capacity as int)
        && ring.log.len() <= at + capacity {
        lemma_newest_of_retained(ring.log, capacity, at as nat);
        lemma_same_slot(ring.log, capacity, at as nat, counter);
    }
    lemma_newest_is_entry(ring.log, capacity, counter);
    if let Some(frame) = ring.occupant(counter) {
        let found = choose|found: int|
            0 <= found < ring.log.len() && frame == #[trigger] ring.log[found] && found % (
            capacity as int) == counter % capacity;
        assert(found % (ring.spec.capacity as int) == counter as int % (
        ring.spec.capacity as int));
    }
}

/// Lookups are exact: an identifier of the ring's kind is found exactly where the
/// position that it names is one of the last `capacity` ones and was written under that
/// very identifier, and gives what was written there.
pub proof fn law_lookups_are_exact(ring: RingView, id: NetId64)
    requires
        ring.consistent(),
        ring.log.len() <= id::COUNTER_SPAN,
    ensures
        ({
            let counter = id.spec_counter() as int;
            let held = id.spec_kind() == ring.kind && counter < ring.log.len() && ring.log.len()
                <= counter + ring.spec.capacity && ring.log[counter].id == id;
            ring.lookup(id) == (if held {
                Some(ring.log[counter])
            } else {
                None
            })
        }),
{
    let counter = id.spec_counter() as nat;
    let capacity = ring.spec.capacity as nat;
    if counter < ring.log.len() {
        if ring.log.len() <= counter + capacity {
            lemma_newest_of_retained(ring.log, capacity, counter);
        } else {
            let at = lemma_newest_is_later(ring.log, capacity, counter);
            vstd::arithmetic::div_mod::lemma_small_mod(at as nat, id::COUNTER_SPAN as nat);
            assert(ring.log[at].id.spec_counter() == at);
        }
    } else {
        lemma_newest_is_entry(ring.log, capacity, counter);
        if let Some(frame) = ring.occupant(counter) {
            let at = choose|at: int|
                0 <= at < ring.log.len() && frame == #[trigger] ring.log[at] && at % (
                capacity as int) == counter % capacity;
            vstd::arithmetic::div_mod::lemma_small_mod(at as nat, id::COUNTER_SPAN as nat);
            assert(ring.log[at].id.spec_counter() == at);
        }
    }
}

/// A write stands at the end of the log: under the identifier of its kind, its member and
/// its position, with its message class, its version and its payload. What was written
/// before stays as it was, and the newest frame is that of the last write.
pub proof fn law_a_write_stands_at_the_end(
    ring: RingView,
    node: u16,
    frame_kind: u8,
    ver: u64,
    payload: Seq<u8>,
)
    ensures
        ({
            let after = ring.appended(node, frame_kind, ver, payload);
            let frame = FrameView {
                id: NetId64::minted(ring.kind, node, ring.log.len()),
                kind: frame_kind,
                ver,
                payload,
            };
            &&& after.log == ring.log.push(frame)
            &&& after.kind == ring.kind
            &&& after.spec == ring.spec
            &&& after.latest() == Some(frame)
            &&& RingView::fresh(ring.kind, ring.spec).latest() is None
            &&& RingView::fresh(ring.kind, ring.spec).log.len() == 0
        }),
{
    let after = ring.appended(node, frame_kind, ver, payload);
    assert(after.log.last() == ring.next_frame(node, frame_kind, ver, payload));
}

/// A layout is sound exactly where its capacity is a power of two and its payloads can be
/// counted in 32 bits and allocated.
pub proof fn law_what_makes_a_ring_layout_sound(spec: RingSpec)
    ensures
        spec.valid() <==> (exists|k: nat| #[trigger]
            vstd::arithmetic::power2::pow2(k) == spec.capacity) && spec.payload_capacity
            < 0x1_0000_0000 && spec.payload_capacity <= isize::MAX,
{
    vstd::arithmetic::power2::is_pow2_equiv(spec.capacity as int);
    if exists|k: nat| #[trigger] vstd::arithmetic::power2::pow2(k) == spec.capacity {
        let k = choose|k: nat| #[trigger] vstd::arithmetic::power2::pow2(k) == spec.capacity;
        vstd::arithmetic::power2::lemma_pow2_pos(k);
        vstd::arithmetic::power2::lemma_pow2(k);
    }
    if spec.valid() {
        let k = choose|k: nat| vstd::arithmetic::power::pow(2, k) == spec.capacity as int;
        vstd::arithmetic::power2::lemma_pow2(k);
        assert(vstd::arithmetic::power2::pow2(k) == spec.capacity);
    }
}

/// A position reads by what its slot holds: the frame itself where that carries the
/// counter asked for, unavailable where it carries a later one, and pending where it
/// carries an earlier one or where there is none. A lookup gives what the slot of the
/// identifier holds, if that is of this kind and carries the identifier.
pub proof fn law_positions_read_by_their_slot(ring: RingView, counter: u64, id: NetId64)
    ensures
        ring.occupant(counter as nat) is None ==> ring.state_at(counter) is Pending,
        ring.occupant(counter as nat) matches Some(frame) ==> {
            &&& frame.id.spec_counter() == counter ==> ring.state_at(counter)
                == RingReadView::Ready(frame)
            &&& frame.id.spec_counter() > counter ==> ring.state_at(counter) is Unavailable
            &&& frame.id.spec_counter() < counter ==> ring.state_at(counter) is Pending
        },
        ring.occupant(id.spec_counter() as nat) is None ==> ring.lookup(id) is None,
        ring.occupant(id.spec_counter() as nat) matches Some(frame) ==> ring.lookup(id) == (
        if frame.id == id && id.spec_kind() == ring.kind {
            Some(frame)
        } else {
            None
        }),
{
}

/// Polling a ring is walking it as a source: from the same position both give the same
/// frames, losses and end.
pub proof fn law_ring_polls_are_walks(ring: &Ring, next: u64)
    requires
        ring.wf(),
    ensures
        ring@.polled(next) == cursor::walk::polled_source(ring, next),
{
    let view = ring@;
    assert((|counter: u64| view.state_at(counter)) =~= (|counter: u64|
        ring.source_state_at(counter)));
}

} // verus!
