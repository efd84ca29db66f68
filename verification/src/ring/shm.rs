//! Shared-memory ring layout and protocol.
//!
//! ```text
//! offset 0                              offset HEADER_SIZE
//! [ header (64 bytes)                 ][ slot 0 | slot 1 | ... | slot N-1 ]
//!   magic / version / kind               each SLOT_SIZE bytes
//!   capacity / write_pos
//! ```
//!
//! A writer claims a counter, marks the slot as being written with an odd
//! sequence, fills it, and commits it with an even one:
//!
//! 1. `counter = write_pos`, and `write_pos` moves on
//! 2. `seq = 2 * counter + 1` (odd: writing)
//! 3. identifier, message class, version, payload length, payload
//! 4. `seq = 2 * counter + 2` (even: committed)
//!
//! A reader takes the sequence before and after the content and accepts the
//! content only where both agree and are even. Tearing is detected, never silently
//! merged; a reader that loses the race retries.

use bytes::Bytes;
use vstd::prelude::*;

use crate::buf;
use crate::error::{IoError, IoErrorKind};
use crate::id;
use crate::id::NetId64;
use crate::node::NodeId;
use crate::ring;
use crate::ring::cursor::{RingFrameSource, RingRead, RingReadView};
use crate::ring::{Frame, FrameView, RingSpec, RingTopology, RingView};
use crate::text;

verus! {

/// First word of a ring segment.
pub const MAGIC: u32 = 0x4F52_4254;

/// Layout version of a ring segment.
pub const VERSION: u32 = 1;

/// Maximum payload bytes per slot.
pub const PAYLOAD_MAX: usize = 256;

/// Bytes of the segment header.
pub const HEADER_SIZE: usize = 64;

/// Bytes of one slot.
pub const SLOT_SIZE: usize = 320;

/// How often a reader tries a slot before it gives up.
pub const READ_ATTEMPTS: u32 = 3;

/// Bytes of a segment with `capacity` slots.
pub open spec fn segment_size(capacity: int) -> int {
    HEADER_SIZE + capacity * SLOT_SIZE
}

/// Compute the segment size for a ring of `capacity` slots: one header and the
/// slots.
pub fn segment_size_for_capacity(capacity: usize) -> (size: usize)
    requires
        segment_size(capacity as int) <= usize::MAX,
    ensures
        size == segment_size(capacity as int),
{
    HEADER_SIZE + capacity * SLOT_SIZE
}

/// The header of a segment.
#[derive(Clone, Copy, Debug, PartialEq, Eq, Structural)]
pub struct ShmRingHeader {
    pub magic: u32,
    pub version: u32,
    pub kind: u8,
    pub capacity: u64,
    pub write_pos: u64,
}

/// What is wrong with the header of a segment that a ring of this kind and
/// capacity is attached to: the first of the fields that disagrees.
pub open spec fn header_complaint(
    name: Seq<char>,
    header: ShmRingHeader,
    kind: u8,
    capacity: usize,
) -> Option<Seq<char>> {
    let subject = "SHM segment "@ + name;
    if header.magic != MAGIC {
        Some(
            subject + " has wrong magic 0x"@ + text::hex_digits(header.magic as nat, 8)
                + " (expected 0x"@ + text::hex_digits(MAGIC as nat, 8) + ")"@,
        )
    } else if header.version != VERSION {
        Some(
            subject + " version "@ + text::decimal(header.version as nat) + " != local "@
                + text::decimal(VERSION as nat),
        )
    } else if header.kind != kind {
        Some(
            subject + " kind "@ + text::decimal(header.kind as nat) + " != requested "@
                + text::decimal(kind as nat),
        )
    } else if header.capacity != capacity {
        Some(
            subject + " capacity "@ + text::decimal(header.capacity as nat) + " != requested "@
                + text::decimal(capacity as nat),
        )
    } else {
        None
    }
}

impl ShmRingHeader {
    /// The header of a new segment.
    pub fn new(kind: u8, capacity: usize) -> (header: ShmRingHeader)
        ensures
            header == (ShmRingHeader {
                magic: MAGIC,
                version: VERSION,
                kind,
                capacity: capacity as u64,
                write_pos: 0,
            }),
    {
        ShmRingHeader {
            magic: MAGIC,
            version: VERSION,
            kind,
            capacity: capacity as u64,
            write_pos: 0,
        }
    }

    /// Check the header of an existing segment before attaching to it.
    pub fn check(&self, name: &str, kind: u8, capacity: usize) -> (checked: Result<(), IoError>)
        ensures
            match checked {
                Ok(_) => header_complaint(name@, *self, kind, capacity) is None,
                Err(error) => {
                    &&& error.kind == IoErrorKind::InvalidData
                    &&& header_complaint(name@, *self, kind, capacity) == Some(error.message@)
                },
            },
    {
        let mut message = "SHM segment ".to_owned();
        message.append(name);
        if self.magic != MAGIC {
            message.append(" has wrong magic 0x");
            text::append_hex(&mut message, self.magic as u64, 8);
            message.append(" (expected 0x");
            text::append_hex(&mut message, MAGIC as u64, 8);
            message.append(")");
            return Err(IoError { kind: IoErrorKind::InvalidData, message });
        }
        if self.version != VERSION {
            message.append(" version ");
            text::append_decimal(&mut message, self.version as u64);
            message.append(" != local ");
            text::append_decimal(&mut message, VERSION as u64);
            return Err(IoError { kind: IoErrorKind::InvalidData, message });
        }
        if self.kind != kind {
            message.append(" kind ");
            text::append_decimal(&mut message, self.kind as u64);
            message.append(" != requested ");
            text::append_decimal(&mut message, kind as u64);
            return Err(IoError { kind: IoErrorKind::InvalidData, message });
        }
        if self.capacity != capacity as u64 {
            message.append(" capacity ");
            text::append_decimal(&mut message, self.capacity);
            message.append(" != requested ");
            text::append_decimal(&mut message, capacity as u64);
            return Err(IoError { kind: IoErrorKind::InvalidData, message });
        }
        Ok(())
    }
}

/// One slot, as a reader finds it.
#[derive(Clone, Debug, PartialEq, Eq)]
pub struct ShmSlot {
    /// Odd while a writer is at work, even once committed, zero before the first
    /// write.
    pub seq: u64,
    /// Raw identifier of the frame.
    pub id: u64,
    /// Message class of the frame.
    pub kind: u8,
    /// Version of the frame.
    pub ver: u64,
    /// Length of the meaningful prefix of the payload.
    pub payload_len: u32,
    /// Payload area.
    pub payload: Vec<u8>,
}

/// The sequence of a slot while `counter` is being written.
pub open spec fn writing_seq(counter: int) -> int {
    2 * counter + 1
}

/// The sequence of a slot once `counter` is committed.
pub open spec fn committed_seq(counter: int) -> int {
    2 * counter + 2
}

/// The frame that a slot holds, as a reader may take it that saw `seq_post` behind
/// the content: nothing while the slot is unwritten, being written or torn, and
/// nothing from a slot whose length is corrupt.
pub open spec fn committed(slot: ShmSlot, seq_post: u64) -> Option<FrameView> {
    if slot.seq == 0 || slot.seq % 2 == 1 || slot.payload_len > PAYLOAD_MAX || slot.payload_len
        > slot.payload@.len() || slot.seq != seq_post {
        None
    } else {
        Some(slot_content(slot))
    }
}

/// What the fields of a slot say, whatever its sequence.
pub open spec fn slot_content(slot: ShmSlot) -> FrameView {
    FrameView {
        id: NetId64::of_raw(slot.id),
        kind: slot.kind,
        ver: slot.ver,
        payload: slot.payload@.subrange(0, slot.payload_len as int),
    }
}

/// How the position `counter` reads from a slot, for a reader that saw `seq_post`
/// behind the content.
pub open spec fn slot_state(slot: ShmSlot, seq_post: u64, counter: u64) -> RingReadView {
    if slot.seq != seq_post || slot.seq <= writing_seq(counter as int) {
        RingReadView::Pending
    } else if slot.seq == committed_seq(counter as int) {
        match committed(slot, seq_post) {
            Some(frame) => RingReadView::Ready(frame),
            None => RingReadView::Unavailable,
        }
    } else {
        RingReadView::Unavailable
    }
}

impl ShmSlot {
    /// A slot that nobody has written to.
    pub fn empty() -> (slot: ShmSlot)
        ensures
            slot.seq == 0,
            slot.payload@.len() == PAYLOAD_MAX,
    {
        let mut payload: Vec<u8> = Vec::with_capacity(PAYLOAD_MAX);
        let mut i: usize = 0;
        while i < PAYLOAD_MAX
            invariant
                i <= PAYLOAD_MAX,
                payload@.len() == i,
            decreases PAYLOAD_MAX - i,
        {
            payload.push(0);
            i = i + 1;
        }
        ShmSlot { seq: 0, id: 0, kind: 0, ver: 0, payload_len: 0, payload }
    }

    /// Take the frame of this slot, given the sequence that was seen behind its
    /// content.
    pub fn committed_frame(&self, seq_post: u64) -> (frame: Option<Frame>)
        ensures
            ring::slot_view(frame) == committed(*self, seq_post),
    {
        if self.seq == 0 {
            return None;
        }
        if self.seq % 2 == 1 {
            return None;
        }
        let payload_len: usize = self.payload_len as usize;
        if payload_len > PAYLOAD_MAX || payload_len > self.payload.len() {
            return None;
        }
        if self.seq != seq_post {
            return None;
        }
        let data = vstd::slice::slice_subrange(self.payload.as_slice(), 0, payload_len);
        Some(
            Frame {
                id: NetId64::from_raw(self.id),
                kind: self.kind,
                ver: self.ver,
                payload: buf::bytes_from_slice(data),
            },
        )
    }

    /// Classify the position `counter`, given the sequence that was seen behind the
    /// slot's content.
    pub fn state_of(&self, seq_post: u64, counter: u64) -> (state: RingRead)
        ensures
            state@ == slot_state(*self, seq_post, counter),
    {
        if self.seq != seq_post {
            return RingRead::Pending;
        }
        if self.seq == 0 || (self.seq - 1) / 2 <= counter && self.seq % 2 == 1 || (self.seq - 1) / 2
            < counter {
            return RingRead::Pending;
        }
        if self.seq % 2 == 0 && self.seq / 2 - 1 == counter {
            return match self.committed_frame(seq_post) {
                Some(frame) => RingRead::Ready(frame),
                None => RingRead::Unavailable,
            };
        }
        RingRead::Unavailable
    }
}

/// What a reader does after a look at a slot.
#[derive(Clone, Debug, PartialEq, Eq)]
pub enum ReadStep {
    /// The look gave a whole frame.
    Accept(Frame),
    /// The look gave none; look again, with one attempt less.
    Retry { attempts_left: u32 },
    /// The look gave none, and no attempt is left.
    GiveUp,
}

/// What a reader does after a look, as values.
pub enum ReadStepView {
    Accept(FrameView),
    Retry { attempts_left: u32 },
    GiveUp,
}

impl View for ReadStep {
    type V = ReadStepView;

    open spec fn view(&self) -> ReadStepView {
        match self {
            ReadStep::Accept(frame) => ReadStepView::Accept(frame@),
            ReadStep::Retry { attempts_left } => ReadStepView::Retry {
                attempts_left: *attempts_left,
            },
            ReadStep::GiveUp => ReadStepView::GiveUp,
        }
    }
}

/// What follows a look: a frame is accepted, and a look without one is repeated while
/// attempts are left.
pub open spec fn read_step(look: Option<FrameView>, attempts_left: u32) -> ReadStepView {
    match look {
        Some(frame) => ReadStepView::Accept(frame),
        None => if attempts_left > 0 {
            ReadStepView::Retry { attempts_left: (attempts_left - 1) as u32 }
        } else {
            ReadStepView::GiveUp
        },
    }
}

/// Decide what follows a look at a slot, with `attempts_left` looks left after it.
pub fn after_look(look: Option<Frame>, attempts_left: u32) -> (step: ReadStep)
    ensures
        step@ == read_step(ring::slot_view(look), attempts_left),
{
    match look {
        Some(frame) => ReadStep::Accept(frame),
        None => if attempts_left > 0 {
            ReadStep::Retry { attempts_left: attempts_left - 1 }
        } else {
            ReadStep::GiveUp
        },
    }
}

/// What a reader ends with whose looks, one after the other, give `looks`: it follows
/// [`read_step`] from the look numbered `at` on.
pub open spec fn read_outcome(
    looks: spec_fn(int) -> Option<FrameView>,
    at: int,
    attempts_left: u32,
) -> Option<FrameView>
    decreases attempts_left,
{
    match read_step(looks(at), attempts_left) {
        ReadStepView::Accept(frame) => Some(frame),
        ReadStepView::Retry { attempts_left: fewer } => read_outcome(looks, at + 1, fewer),
        ReadStepView::GiveUp => None,
    }
}

/// A reader takes the first whole frame that its looks give, and gives up only after
/// the last attempt has given none.
pub proof fn law_readers_take_the_first_whole_look(
    looks: spec_fn(int) -> Option<FrameView>,
    at: int,
    attempts_left: u32,
)
    ensures
        read_outcome(looks, at, attempts_left) matches Some(frame) ==> exists|k: int|
            at <= k <= at + attempts_left && #[trigger] looks(k) == Some(frame) && forall|j: int|
                at <= j < k ==> #[trigger] looks(j) is None,
        read_outcome(looks, at, attempts_left) is None ==> forall|k: int|
            at <= k <= at + attempts_left ==> #[trigger] looks(k) is None,
    decreases attempts_left,
{
    if looks(at) is None && attempts_left > 0 {
        law_readers_take_the_first_whole_look(looks, at + 1, (attempts_left - 1) as u32);
        if let Some(frame) = read_outcome(looks, at, attempts_left) {
            let k = choose|k: int|
                at + 1 <= k <= at + attempts_left && #[trigger] looks(k) == Some(frame) && forall|
                    j: int,
                |
                    at + 1 <= j < k ==> #[trigger] looks(j) is None;
            assert(looks(k) == Some(frame));
        }
    }
}

/// How a writer fills the slot of a claimed counter.
pub struct WritePlan {
    /// The slot to fill.
    pub slot: usize,
    /// The sequence to store before the content.
    pub writing: u64,
    /// The sequence to store behind the content.
    pub committed: u64,
    /// The identifier of the frame.
    pub id: NetId64,
}

/// Whether a counter can be written: the sequence that marks its slot fits 64 bits.
pub open spec fn counter_fits(counter: int) -> bool {
    writing_seq(counter) <= u64::MAX
}

/// The sequence that a slot of 64 bits is committed with. That of the last counter that
/// can be written wraps to zero, and its slot reads as unwritten.
pub open spec fn stored_seq(counter: int) -> int {
    if committed_seq(counter) <= u64::MAX {
        committed_seq(counter)
    } else {
        0
    }
}

/// Plan the write of a claimed counter by a member.
pub fn plan_write(kind: u8, node_id: NodeId, counter: u64, capacity: usize) -> (plan: WritePlan)
    requires
        capacity > 0,
        counter_fits(counter as int),
    ensures
        plan.slot == counter as int % capacity as int,
        plan.slot < capacity,
        plan.writing == writing_seq(counter as int),
        plan.committed == stored_seq(counter as int),
        plan.id == NetId64::minted(kind, node_id.spec_get(), counter as nat),
{
    let writing: u64 = 2 * counter + 1;
    WritePlan {
        slot: (counter % (capacity as u64)) as usize,
        writing,
        committed: writing.wrapping_add(1),
        id: NetId64::make(kind, node_id.get(), counter),
    }
}

/// The refusal of a payload that does not fit a slot.
pub open spec fn payload_message(len: nat) -> Seq<char> {
    "payload "@ + text::decimal(len) + " > PAYLOAD_MAX "@ + text::decimal(PAYLOAD_MAX as nat)
}

/// Refuse a payload that does not fit a slot.
pub fn check_payload(payload: &Bytes) -> (checked: Result<(), IoError>)
    ensures
        match checked {
            Ok(_) => buf::bytes_contents(*payload).len() <= PAYLOAD_MAX,
            Err(error) => {
                &&& buf::bytes_contents(*payload).len() > PAYLOAD_MAX
                &&& error.kind == IoErrorKind::InvalidInput
                &&& error.message@ == payload_message(buf::bytes_contents(*payload).len())
            },
        },
{
    let len: usize = buf::bytes_as_slice(payload).len();
    if len > PAYLOAD_MAX {
        let mut message = "payload ".to_owned();
        text::append_decimal(&mut message, len as u64);
        message.append(" > PAYLOAD_MAX ");
        text::append_decimal(&mut message, PAYLOAD_MAX as u64);
        return Err(IoError { kind: IoErrorKind::InvalidInput, message });
    }
    Ok(())
}

/// The newest of the positions below `len` that share the slot of `counter`.
pub open spec fn newest_position(len: nat, capacity: nat, counter: nat) -> Option<nat>
    decreases len,
{
    if len == 0 {
        None
    } else if (len - 1) as nat % capacity == counter % capacity {
        Some((len - 1) as nat)
    } else {
        newest_position((len - 1) as nat, capacity, counter)
    }
}

/// The occupant of a slot is the log entry at its newest position.
pub proof fn lemma_newest_position(log: Seq<FrameView>, capacity: nat, counter: nat)
    requires
        capacity > 0,
    ensures
        match newest_position(log.len(), capacity, counter) {
            Some(at) => {
                &&& at < log.len()
                &&& at % capacity == counter % capacity
                &&& ring::newest_in_slot(log, capacity, counter) == Some(log[at as int])
            },
            None => ring::newest_in_slot(log, capacity, counter) is None,
        },
    decreases log.len(),
{
    if log.len() > 0 && (log.len() - 1) as nat % capacity != counter % capacity {
        lemma_newest_position(log.drop_last(), capacity, counter);
    }
}

/// A frame that has left its slot: only its place in the ring is known.
pub open spec fn forgotten_frame(kind: u8, counter: nat) -> FrameView {
    FrameView { id: NetId64::minted(kind, 0, counter), kind: 0, ver: 0, payload: seq![] }
}

/// A log that the slots of a segment can have come from. Positions that are not
/// committed in their slot stand as forgotten frames.
pub open spec fn image_log(header: ShmRingHeader, slots: Seq<ShmSlot>) -> Seq<FrameView> {
    Seq::new(
        header.write_pos as nat,
        |i: int|
            {
                let slot = slots[i % (slots.len() as int)];
                match committed(slot, slot.seq) {
                    Some(frame) => if slot.seq == committed_seq(i) {
                        frame
                    } else {
                        forgotten_frame(header.kind, i as nat)
                    },
                    None => forgotten_frame(header.kind, i as nat),
                }
            },
    )
}

/// Whether the slots of a segment are at rest: each is committed with the newest
/// position that belongs to it, or has never been written.
pub open spec fn image_settled(header: ShmRingHeader, slots: Seq<ShmSlot>) -> bool {
    &&& header.magic == MAGIC
    &&& header.version == VERSION
    &&& header.capacity == slots.len()
    &&& slots.len() > 0
    &&& ring::power_of_two(slots.len() as int)
    &&& forall|i: int|
        0 <= i < slots.len() ==> slot_settled(
            #[trigger] slots[i],
            header.kind,
            newest_position(header.write_pos as nat, slots.len(), i as nat),
        )
}

/// Whether a slot is committed with position `newest` of a ring of this kind, or
/// unwritten where there is none.
pub open spec fn slot_settled(slot: ShmSlot, kind: u8, newest: Option<nat>) -> bool {
    &&& slot.payload@.len() == PAYLOAD_MAX
    &&& match newest {
        Some(at) => {
            &&& slot.seq == committed_seq(at as int)
            &&& committed(slot, slot.seq) matches Some(frame) && frame.id.spec_kind() == kind
                && frame.id.spec_counter() == at % (id::COUNTER_SPAN as nat)
        },
        None => slot.seq == 0,
    }
}

/// What one segment holds: its header and its slots. Nothing is said of either: the
/// segment may have been written by anybody.
pub struct ShmSegment {
    header: ShmRingHeader,
    slots: Vec<ShmSlot>,
    log: Ghost<Seq<FrameView>>,
}

impl ShmSegment {
    /// The header of this segment.
    pub closed spec fn spec_header(&self) -> ShmRingHeader {
        self.header
    }

    /// The slots of this segment.
    pub closed spec fn spec_slots(&self) -> Seq<ShmSlot> {
        self.slots@
    }

    /// Everything written to the segment since the last reset, where the segment is
    /// at rest.
    pub closed spec fn spec_log(&self) -> Seq<FrameView> {
        self.log@
    }

    /// Whether `capacity` slots of the right size were mapped.
    pub open spec fn mapped(&self, capacity: usize) -> bool {
        &&& self.spec_slots().len() == capacity
        &&& forall|i: int|
            0 <= i < self.spec_slots().len() ==> (#[trigger] self.spec_slots()[i]).payload@.len()
                == PAYLOAD_MAX
    }

    /// The segment is a ring at rest: each slot is committed and holds the newest
    /// frame that belongs to it.
    pub closed spec fn wf(&self) -> bool {
        &&& self.header.magic == MAGIC
        &&& self.header.version == VERSION
        &&& self.header.capacity == self.slots@.len()
        &&& self.slots@.len() > 0
        &&& ring::power_of_two(self.slots@.len() as int)
        &&& self.header.write_pos == self.log@.len()
        &&& forall|i: int|
            0 <= i < self.log@.len() ==> {
                let frame = #[trigger] self.log@[i];
                &&& frame.id.spec_kind() == self.header.kind
                &&& frame.id.spec_counter() == i % (id::COUNTER_SPAN as int)
                &&& frame.payload.len() <= PAYLOAD_MAX
            }
        &&& forall|i: int|
            0 <= i < self.slots@.len() ==> slot_holds(
                #[trigger] self.slots@[i],
                self.log@,
                self.slots@.len(),
                i as nat,
            )
    }

    /// A segment with any header and any slots.
    pub fn from_parts(header: ShmRingHeader, slots: Vec<ShmSlot>) -> (segment: ShmSegment)
        ensures
            segment.spec_header() == header,
            segment.spec_slots() == slots@,
            image_settled(header, slots@) ==> segment.wf() && segment.spec_log() == image_log(
                header,
                slots@,
            ),
    {
        let ghost log = image_log(header, slots@);
        proof {
            if image_settled(header, slots@) {
                lemma_image_holds(header, slots@);
            }
        }
        ShmSegment { header, slots, log: Ghost(log) }
    }

    /// The header and the slots.
    pub fn into_parts(self) -> (parts: (ShmRingHeader, Vec<ShmSlot>))
        ensures
            parts.0 == self.spec_header(),
            parts.1@ == self.spec_slots(),
    {
        (self.header, self.slots)
    }
}

/// A settled segment holds the log that its slots show.
proof fn lemma_image_holds(header: ShmRingHeader, slots: Seq<ShmSlot>)
    requires
        image_settled(header, slots),
    ensures
        forall|i: int|
            0 <= i < image_log(header, slots).len() ==> {
                let frame = #[trigger] image_log(header, slots)[i];
                &&& frame.id.spec_kind() == header.kind
                &&& frame.id.spec_counter() == i % (id::COUNTER_SPAN as int)
                &&& frame.payload.len() <= PAYLOAD_MAX
            },
        forall|i: int|
            0 <= i < slots.len() ==> slot_holds(
                #[trigger] slots[i],
                image_log(header, slots),
                slots.len(),
                i as nat,
            ),
{
    let log = image_log(header, slots);
    let capacity = slots.len();
    assert forall|i: int| 0 <= i < slots.len() implies slot_holds(
        #[trigger] slots[i],
        log,
        capacity,
        i as nat,
    ) by {
        assert(slot_settled(slots[i], header.kind, newest_position(log.len(), capacity, i as nat)));
        vstd::arithmetic::div_mod::lemma_small_mod(i as nat, capacity);
        lemma_newest_position(log, capacity, i as nat);
    }
    assert forall|i: int| 0 <= i < log.len() implies {
        let frame = #[trigger] log[i];
        &&& frame.id.spec_kind() == header.kind
        &&& frame.id.spec_counter() == i % (id::COUNTER_SPAN as int)
        &&& frame.payload.len() <= PAYLOAD_MAX
    } by {
        let index = i % (capacity as int);
        let slot = slots[index];
        id::lemma_minted_fields(header.kind, 0, i as nat);
        assert(slot_settled(
            slot,
            header.kind,
            newest_position(log.len(), capacity, index as nat),
        ));
        if slot.seq == committed_seq(i) {
            assert(newest_position(log.len(), capacity, index as nat) == Some(i as nat));
        }
    }
}

/// Whether a slot is committed with what the log says belongs to it.
pub open spec fn slot_holds(slot: ShmSlot, log: Seq<FrameView>, capacity: nat, index: nat) -> bool {
    &&& slot.payload@.len() == PAYLOAD_MAX
    &&& match newest_position(log.len(), capacity, index) {
        Some(at) => {
            &&& slot.seq == committed_seq(at as int)
            &&& committed(slot, slot.seq) == Some(log[at as int])
        },
        None => slot.seq == 0,
    }
}

/// A ring over one segment.
pub struct ShmRing {
    kind: u8,
    capacity: usize,
    created: bool,
    segment: ShmSegment,
}

impl View for ShmRing {
    type V = RingView;

    closed spec fn view(&self) -> RingView {
        RingView {
            kind: self.kind,
            spec: RingSpec {
                capacity: self.capacity,
                payload_capacity: PAYLOAD_MAX,
                topology: RingTopology::Shared,
            },
            log: self.segment.log@,
        }
    }
}

/// The layout of a shared-memory ring.
pub open spec fn shm_spec(capacity: usize) -> RingSpec {
    RingSpec { capacity, payload_capacity: PAYLOAD_MAX, topology: RingTopology::Shared }
}

/// What opening a ring answers, and what is left of the segment that stood under its
/// name: a new segment where there was none; the segment itself, unchanged, under a
/// header that fits; otherwise a refusal, and the segment stays where it is.
pub open spec fn opens(
    name: Seq<char>,
    kind: u8,
    capacity: usize,
    before: Option<ShmSegment>,
    after: Option<ShmSegment>,
    result: Result<ShmRing, IoError>,
) -> bool {
    match before {
        None => {
            &&& after is None
            &&& result matches Ok(ring) && {
                &&& ring.wf()
                &&& ring.attached()
                &&& ring.spec_created()
                &&& ring@ == RingView::fresh(kind, shm_spec(capacity))
            }
        },
        Some(segment) => match header_complaint(name, segment.spec_header(), kind, capacity) {
            None => {
                &&& after is None
                &&& result matches Ok(ring) && {
                    &&& ring.attached()
                    &&& !ring.spec_created()
                    &&& ring.spec_segment() == segment
                    &&& ring@ == (RingView {
                        kind,
                        spec: shm_spec(capacity),
                        log: segment.spec_log(),
                    })
                    &&& segment.wf() ==> ring.wf()
                }
            },
            Some(message) => {
                &&& after == before
                &&& result matches Err(error) && {
                    &&& error.kind == IoErrorKind::InvalidData
                    &&& error.message@ == message
                }
            },
        },
    }
}

/// What a write answers and leaves behind: the claimed counter's slot committed with
/// the frame and every other slot as it was, or a refusal and nothing changed. A ring
/// at rest has grown by the frame.
pub open spec fn writes(
    before: ShmRing,
    after: ShmRing,
    result: Result<NetId64, IoError>,
    node: u16,
    frame_kind: u8,
    ver: u64,
    payload: Seq<u8>,
) -> bool {
    if payload.len() > PAYLOAD_MAX {
        &&& after == before
        &&& result matches Err(error) && {
            &&& error.kind == IoErrorKind::InvalidInput
            &&& error.message@ == payload_message(payload.len())
        }
    } else {
        let header = before.spec_segment().spec_header();
        let counter = header.write_pos;
        let slots = before.spec_segment().spec_slots();
        let at = counter as int % slots.len() as int;
        let slot = after.spec_segment().spec_slots()[at];
        let minted = NetId64::minted(before@.kind, node, counter as nat);
        &&& result == Ok::<NetId64, IoError>(minted)
        &&& after.attached()
        &&& after.spec_created() == before.spec_created()
        &&& after@.kind == before@.kind
        &&& after@.spec == before@.spec
        &&& after.spec_segment().spec_header() == (ShmRingHeader {
            write_pos: (counter + 1) as u64,
            ..header
        })
        &&& after.spec_segment().spec_slots() == slots.update(at, slot)
        &&& slot.seq == stored_seq(counter as int)
        &&& slot_content(slot) == (FrameView { id: minted, kind: frame_kind, ver, payload })
        &&& committed(slot, slot.seq) == (if slot.seq == 0 {
            None
        } else {
            Some(slot_content(slot))
        })
        &&& before.wf() && slot.seq != 0 ==> after.wf() && after@ == before@.appended(
            node,
            frame_kind,
            ver,
            payload,
        )
    }
}

impl ShmRing {
    /// The segment fits the ring: its header carries the ring's kind and capacity, and
    /// its slots are mapped. What the slots hold is left open.
    pub closed spec fn attached(&self) -> bool {
        &&& shm_spec(self.capacity).valid()
        &&& self.segment.header.magic == MAGIC
        &&& self.segment.header.version == VERSION
        &&& self.segment.header.kind == self.kind
        &&& self.segment.header.capacity == self.capacity
        &&& self.segment.mapped(self.capacity)
    }

    /// The ring is attached and at rest.
    pub closed spec fn wf(&self) -> bool {
        &&& self.segment.wf()
        &&& self.segment.header.kind == self.kind
        &&& self.segment.header.capacity == self.capacity
    }

    /// Whether this handle created the segment.
    pub closed spec fn spec_created(&self) -> bool {
        self.created
    }

    /// The segment of this ring.
    pub closed spec fn spec_segment(&self) -> ShmSegment {
        self.segment
    }

    /// The slot of a counter.
    pub open spec fn slot_of(&self, counter: u64) -> ShmSlot {
        self.spec_segment().spec_slots()[counter as int % self.spec_segment().spec_slots().len() as int]
    }

    /// What the representation says of a ring at rest: it is attached, and its slots
    /// show its log.
    pub proof fn lemma_wf_consistent(&self)
        requires
            self.wf(),
        ensures
            self.attached(),
            self@.consistent(),
            self@.spec == shm_spec(self@.spec.capacity),
            self@.head() == self.spec_segment().spec_header().write_pos,
    {
        assert forall|i: int| 0 <= i < self.segment.slots@.len() implies (
        #[trigger] self.segment.spec_slots()[i]).payload@.len() == PAYLOAD_MAX by {
            assert(slot_holds(
                self.segment.slots@[i],
                self.segment.log@,
                self.segment.slots@.len(),
                i as nat,
            ));
        }
    }

    /// How a ring at rest reads: each slot gives the newest frame of its positions.
    pub proof fn lemma_settled_reads(&self, counter: u64)
        requires
            self.wf(),
        ensures
            committed(self.slot_of(counter), self.slot_of(counter).seq) == self@.occupant(
                counter as nat,
            ),
            slot_state(self.slot_of(counter), self.slot_of(counter).seq, counter)
                == position_state(self@, counter),
    {
        let capacity = self.capacity as nat;
        let index = counter as nat % capacity;
        vstd::arithmetic::div_mod::lemma_small_mod(index, capacity);
        ring::lemma_same_slot(self.segment.log@, capacity, index, counter as nat);
        lemma_same_position(self.segment.log@.len(), capacity, index, counter as nat);
        lemma_newest_position(self.segment.log@, capacity, index);
        assert(slot_holds(
            self.segment.slots@[index as int],
            self.segment.log@,
            capacity,
            index,
        ));
    }

    /// Open a ring on the segment that stands under `name`, or create the segment
    /// where there is none. An existing segment must carry this kind and capacity; one
    /// that does not is refused and stays where it is. Whatever the slots hold is kept.
    pub fn open_or_create(
        name: &str,
        kind: u8,
        capacity: usize,
        existing: &mut Option<ShmSegment>,
    ) -> (ring: Result<ShmRing, IoError>)
        requires
            shm_spec(capacity).valid(),
            *old(existing) matches Some(segment) ==> (header_complaint(
                name@,
                segment.spec_header(),
                kind,
                capacity,
            ) is None ==> segment.mapped(capacity)),
        ensures
            opens(name@, kind, capacity, *old(existing), *final(existing), ring),
    {
        match existing.take() {
            None => {
                let mut slots: Vec<ShmSlot> = Vec::new();
                let mut i: usize = 0;
                while i < capacity
                    invariant
                        i <= capacity,
                        slots@.len() == i,
                        forall|j: int|
                            0 <= j < i ==> (#[trigger] slots@[j]).seq == 0
                                && slots@[j].payload@.len() == PAYLOAD_MAX,
                    decreases capacity - i,
                {
                    slots.push(ShmSlot::empty());
                    i = i + 1;
                }
                let segment = ShmSegment {
                    header: ShmRingHeader::new(kind, capacity),
                    slots,
                    log: Ghost(Seq::empty()),
                };
                let ring = ShmRing { kind, capacity, created: true, segment };
                proof {
                    ring.lemma_wf_consistent();
                }
                Ok(ring)
            },
            Some(segment) => {
                match segment.header.check(name, kind, capacity) {
                    Ok(_) => Ok(ShmRing { kind, capacity, created: false, segment }),
                    Err(error) => {
                        *existing = Some(segment);
                        Err(error)
                    },
                }
            },
        }
    }

    /// Detach: what the segment holds stays for the next one to attach.
    pub fn into_segment(self) -> (segment: ShmSegment)
        ensures
            segment == self.spec_segment(),
            self.wf() ==> segment.wf() && segment.spec_log() == self@.log,
    {
        self.segment
    }

    /// Whether this handle created the segment, rather than attaching to one.
    #[verifier::when_used_as_spec(spec_created)]
    pub fn created(&self) -> (created: bool)
        ensures
            created == self.spec_created(),
    {
        self.created
    }

    /// The kind this ring carries.
    pub fn kind(&self) -> (kind: u8)
        ensures
            kind == self@.kind,
    {
        self.kind
    }

    /// Total slot count.
    pub fn capacity(&self) -> (capacity: usize)
        ensures
            capacity == self@.spec.capacity,
    {
        self.capacity
    }

    /// Number of writes performed since the last reset.
    pub fn head(&self) -> (head: u64)
        ensures
            head == self.spec_segment().spec_header().write_pos,
            self.wf() ==> head == self@.head(),
    {
        self.segment.header.write_pos
    }

    /// Append a frame and return the identifier minted for it. A payload that does
    /// not fit a slot is refused before a counter is claimed.
    pub fn write(&mut self, node_id: NodeId, frame_kind: u8, ver: u64, payload: Bytes) -> (result:
        Result<NetId64, IoError>)
        requires
            old(self).attached(),
            buf::bytes_contents(payload).len() <= PAYLOAD_MAX ==> counter_fits(
                old(self).spec_segment().spec_header().write_pos as int,
            ),
        ensures
            final(self).attached(),
            writes(
                *old(self),
                *final(self),
                result,
                node_id.spec_get(),
                frame_kind,
                ver,
                buf::bytes_contents(payload),
            ),
    {
        match check_payload(&payload) {
            Ok(_) => {},
            Err(error) => {
                return Err(error);
            },
        }
        let counter: u64 = self.segment.header.write_pos;
        let plan = plan_write(self.kind, node_id, counter, self.capacity);
        let ghost before = self.segment.log@;
        let ghost old_slots = self.segment.slots@;
        let ghost written = FrameView {
            id: plan.id,
            kind: frame_kind,
            ver,
            payload: buf::bytes_contents(payload),
        };
        let data = buf::bytes_as_slice(&payload);
        let at: usize = plan.slot;
        proof {
            id::lemma_raw_determines(plan.id, plan.id);
            assert(self.segment.spec_slots()[at as int].payload@.len() == PAYLOAD_MAX);
        }
        self.segment.header.write_pos = counter + 1;
        self.segment.slots[at].seq = plan.writing;
        self.segment.slots[at].id = plan.id.raw();
        self.segment.slots[at].kind = frame_kind;
        self.segment.slots[at].ver = ver;
        self.segment.slots[at].payload_len = data.len() as u32;
        let mut i: usize = 0;
        while i < data.len()
            invariant
                i <= data@.len() <= PAYLOAD_MAX,
                at < self.segment.slots@.len(),
                self.segment.slots@.len() == old_slots.len(),
                forall|j: int|
                    0 <= j < old_slots.len() && j != at ==> self.segment.slots@[j] == old_slots[j],
                self.segment.slots@[at as int].seq == plan.writing,
                self.segment.slots@[at as int].id == plan.id.spec_raw(),
                self.segment.slots@[at as int].kind == frame_kind,
                self.segment.slots@[at as int].ver == ver,
                self.segment.slots@[at as int].payload_len == data@.len(),
                self.segment.slots@[at as int].payload@.len() == PAYLOAD_MAX,
                forall|j: int|
                    0 <= j < i ==> self.segment.slots@[at as int].payload@[j] == data@[j],
                self.segment.header == (ShmRingHeader {
                    write_pos: (counter + 1) as u64,
                    ..old(self).segment.header
                }),
                counter < u64::MAX,
                self.segment.log@ == before,
                self.kind == old(self).kind,
                self.capacity == old(self).capacity,
                self.created == old(self).created,
            decreases data@.len() - i,
        {
            self.segment.slots[at].payload.set(i, data[i]);
            i = i + 1;
        }
        self.segment.slots[at].seq = plan.committed;
        self.segment.log = Ghost(before.push(written));
        proof {
            let slot = self.segment.slots@[at as int];
            assert(slot.payload@.subrange(0, slot.payload_len as int) =~= data@);
            assert(slot_content(slot) == written);
            id::lemma_minted_fields(self.kind, node_id.spec_get(), counter as nat);
            assert(self.segment.slots@ =~= old_slots.update(at as int, slot));
            assert forall|j: int| 0 <= j < self.segment.slots@.len() implies (
            #[trigger] self.segment.spec_slots()[j]).payload@.len() == PAYLOAD_MAX by {
                assert(old(self).segment.spec_slots()[j].payload@.len() == PAYLOAD_MAX);
            }
            if old(self).wf() && slot.seq != 0 {
                lemma_append_holds(before, written, old_slots, slot, at as int, self.kind);
                assert(self.segment.log@ == before.push(written));
            }
        }
        Ok(plan.id)
    }

    /// Read whatever frame occupies the slot of `counter`.
    pub fn read_at(&self, counter: u64) -> (frame: Option<Frame>)
        requires
            self.attached(),
        ensures
            ring::slot_view(frame) == committed(self.slot_of(counter), self.slot_of(counter).seq),
            self.wf() ==> ring::slot_view(frame) == self@.occupant(counter as nat),
    {
        let slot_idx: usize = (counter % (self.capacity as u64)) as usize;
        proof {
            if self.wf() {
                self.lemma_settled_reads(counter);
            }
        }
        let slot = &self.segment.slots[slot_idx];
        slot.committed_frame(slot.seq)
    }

    /// Read the frame at the counter of an identifier of this ring's kind, while
    /// the slot still holds that counter.
    pub fn read(&self, id: NetId64) -> (frame: Option<Frame>)
        requires
            self.attached(),
        ensures
            ring::slot_view(frame) == if id.spec_kind() != self@.kind {
                None
            } else {
                let slot = self.slot_of(id.spec_counter());
                with_counter(committed(slot, slot.seq), id.spec_counter())
            },
            self.wf() ==> ring::slot_view(frame) == at_counter(self@, id),
    {
        if id.kind() != self.kind {
            return None;
        }
        match self.read_at(id.counter()) {
            Some(frame) => {
                if frame.id.counter() == id.counter() {
                    Some(frame)
                } else {
                    None
                }
            },
            None => None,
        }
    }

    /// Read the most recent frame.
    pub fn read_head(&self) -> (frame: Option<Frame>)
        requires
            self.attached(),
        ensures
            ring::slot_view(frame) == {
                let head = self.spec_segment().spec_header().write_pos;
                if head == 0 {
                    None
                } else {
                    let slot = self.slot_of((head - 1) as u64);
                    committed(slot, slot.seq)
                }
            },
            self.wf() ==> ring::slot_view(frame) == self@.latest(),
    {
        let head: u64 = self.segment.header.write_pos;
        if head == 0 {
            return None;
        }
        self.read_at(head - 1)
    }

    /// Classify the position `counter`. A position whose slot is being written is
    /// pending.
    pub fn read_state_at(&self, counter: u64) -> (state: RingRead)
        requires
            self.attached(),
        ensures
            state@ == slot_state(self.slot_of(counter), self.slot_of(counter).seq, counter),
            self.wf() ==> state@ == position_state(self@, counter),
    {
        let slot_idx: usize = (counter % (self.capacity as u64)) as usize;
        proof {
            if self.wf() {
                self.lemma_settled_reads(counter);
            }
        }
        let slot = &self.segment.slots[slot_idx];
        slot.state_of(slot.seq, counter)
    }

    /// Clear all slots and set the head back to zero. For owner-controlled cleanup
    /// while no member publishes.
    pub fn reset(&mut self)
        requires
            old(self).attached(),
        ensures
            final(self).wf(),
            final(self).attached(),
            final(self).spec_created() == old(self).spec_created(),
            final(self)@ == RingView::fresh(old(self)@.kind, old(self)@.spec),
    {
        let mut i: usize = 0;
        while i < self.segment.slots.len()
            invariant
                i <= self.segment.slots@.len(),
                self.segment.slots@.len() == old(self).segment.slots@.len(),
                self.segment.header == old(self).segment.header,
                self.kind == old(self).kind,
                self.capacity == old(self).capacity,
                self.created == old(self).created,
                forall|j: int|
                    0 <= j < i ==> (#[trigger] self.segment.slots@[j]).seq == 0
                        && self.segment.slots@[j].payload@.len() == PAYLOAD_MAX,
            decreases self.segment.slots@.len() - i,
        {
            self.segment.slots.set(i, ShmSlot::empty());
            i = i + 1;
        }
        self.segment.header.write_pos = 0;
        self.segment.log = Ghost(Seq::empty());
        proof {
            self.lemma_wf_consistent();
        }
    }
}

/// A frame, if it carries this counter.
pub open spec fn with_counter(frame: Option<FrameView>, counter: u64) -> Option<FrameView> {
    match frame {
        Some(frame) => if frame.id.spec_counter() == counter {
            Some(frame)
        } else {
            None
        },
        None => None,
    }
}

/// The frame of a ring at the counter of an identifier, while the slot still holds
/// that counter.
pub open spec fn at_counter(view: RingView, id: NetId64) -> Option<FrameView> {
    if id.spec_kind() != view.kind {
        None
    } else {
        with_counter(view.occupant(id.spec_counter() as nat), id.spec_counter())
    }
}

/// Writing the next position into its slot keeps a ring at rest.
proof fn lemma_append_holds(
    log: Seq<FrameView>,
    written: FrameView,
    slots: Seq<ShmSlot>,
    slot: ShmSlot,
    at: int,
    kind: u8,
)
    requires
        0 <= at < slots.len(),
        at == log.len() % slots.len(),
        slot.payload@.len() == PAYLOAD_MAX,
        slot.seq == committed_seq(log.len() as int),
        committed(slot, slot.seq) == Some(written),
        written.id.spec_kind() == kind,
        written.id.spec_counter() == log.len() % (id::COUNTER_SPAN as nat),
        written.payload.len() <= PAYLOAD_MAX,
        forall|i: int|
            0 <= i < log.len() ==> {
                let frame = #[trigger] log[i];
                &&& frame.id.spec_kind() == kind
                &&& frame.id.spec_counter() == i % (id::COUNTER_SPAN as int)
                &&& frame.payload.len() <= PAYLOAD_MAX
            },
        forall|i: int|
            0 <= i < slots.len() ==> slot_holds(#[trigger] slots[i], log, slots.len(), i as nat),
    ensures
        forall|i: int|
            0 <= i < log.push(written).len() ==> {
                let frame = #[trigger] log.push(written)[i];
                &&& frame.id.spec_kind() == kind
                &&& frame.id.spec_counter() == i % (id::COUNTER_SPAN as int)
                &&& frame.payload.len() <= PAYLOAD_MAX
            },
        forall|i: int|
            0 <= i < slots.len() ==> slot_holds(
                #[trigger] slots.update(at, slot)[i],
                log.push(written),
                slots.len(),
                i as nat,
            ),
{
    let capacity = slots.len();
    let grown = log.push(written);
    assert forall|j: int| 0 <= j < capacity implies slot_holds(
        #[trigger] slots.update(at, slot)[j],
        grown,
        capacity,
        j as nat,
    ) by {
        vstd::arithmetic::div_mod::lemma_small_mod(j as nat, capacity);
        assert(slot_holds(slots[j], log, capacity, j as nat));
        lemma_newest_position(log, capacity, j as nat);
        if j != at {
            assert(newest_position(grown.len(), capacity, j as nat) == newest_position(
                log.len(),
                capacity,
                j as nat,
            ));
        } else {
            assert(newest_position(grown.len(), capacity, j as nat) == Some(log.len()));
        }
    }
    assert forall|j: int| 0 <= j < grown.len() implies {
        let frame = #[trigger] grown[j];
        &&& frame.id.spec_kind() == kind
        &&& frame.id.spec_counter() == j % (id::COUNTER_SPAN as int)
        &&& frame.payload.len() <= PAYLOAD_MAX
    } by {
        if j < log.len() {
            assert(grown[j] == log[j]);
        }
    }
}

/// How a position reads by its sequence: the newest write in its slot is that very
/// position, or a later one, or the position has not been written.
pub open spec fn position_state(view: RingView, counter: u64) -> RingReadView {
    match newest_position(view.head(), view.spec.capacity as nat, counter as nat) {
        Some(at) => if at == counter {
            RingReadView::Ready(view.log[at as int])
        } else if at > counter {
            RingReadView::Unavailable
        } else {
            RingReadView::Pending
        },
        None => RingReadView::Pending,
    }
}

proof fn lemma_same_position(len: nat, capacity: nat, a: nat, b: nat)
    requires
        a % capacity == b % capacity,
    ensures
        newest_position(len, capacity, a) == newest_position(len, capacity, b),
    decreases len,
{
    if len > 0 {
        lemma_same_position((len - 1) as nat, capacity, a, b);
    }
}

impl RingFrameSource for ShmRing {
    open spec fn source_wf(&self) -> bool {
        self.attached()
    }

    open spec fn source_kind(&self) -> u8 {
        self@.kind
    }

    open spec fn source_head(&self) -> u64 {
        self.spec_segment().spec_header().write_pos
    }

    open spec fn source_capacity(&self) -> usize {
        self@.spec.capacity
    }

    open spec fn source_read_at(&self, counter: u64) -> Option<FrameView> {
        committed(self.slot_of(counter), self.slot_of(counter).seq)
    }

    open spec fn source_state_at(&self, counter: u64) -> RingReadView {
        slot_state(self.slot_of(counter), self.slot_of(counter).seq, counter)
    }

    fn kind(&self) -> (kind: u8) {
        ShmRing::kind(self)
    }

    fn head(&self) -> (head: u64) {
        ShmRing::head(self)
    }

    fn capacity(&self) -> (capacity: usize) {
        ShmRing::capacity(self)
    }

    fn read_at(&self, counter: u64) -> (frame: Option<Frame>) {
        ShmRing::read_at(self, counter)
    }

    fn read_state_at(&self, counter: u64) -> (state: RingRead) {
        ShmRing::read_state_at(self, counter)
    }
}

/// Whether two states of a slot hold the same content.
pub open spec fn same_content(a: ShmSlot, b: ShmSlot) -> bool {
    &&& a.id == b.id
    &&& a.kind == b.kind
    &&& a.ver == b.ver
    &&& a.payload_len == b.payload_len
    &&& a.payload@ == b.payload@
}

/// What can happen to a slot from one moment to the next: nothing; a writer marks it
/// for a later counter; the writer changes its content while it is marked; the writer
/// commits it.
pub open spec fn slot_step(a: ShmSlot, b: ShmSlot) -> bool {
    ||| a.seq == b.seq && same_content(a, b)
    ||| a.seq % 2 == 0 && b.seq % 2 == 1 && a.seq < b.seq && same_content(a, b)
    ||| a.seq % 2 == 1 && a.seq == b.seq
    ||| a.seq % 2 == 1 && b.seq == a.seq + 1 && same_content(a, b)
}

/// A slot over time, with one writer at a time.
pub open spec fn slot_history(states: Seq<ShmSlot>) -> bool {
    forall|i: int|
        0 <= i < states.len() - 1 ==> slot_step(#[trigger] states[i], states[i + 1])
}

/// Whether `seen` was put together between two moments of a history: each field and
/// each payload byte as it stood at some moment between them.
pub open spec fn seen_between(
    states: Seq<ShmSlot>,
    seen: ShmSlot,
    pre: int,
    post: int,
    fields: (int, int, int, int),
    bytes: spec_fn(int) -> int,
) -> bool {
    &&& 0 <= pre <= post < states.len()
    &&& seen.seq == states[pre].seq
    &&& pre <= fields.0 <= post && seen.id == states[fields.0].id
    &&& pre <= fields.1 <= post && seen.kind == states[fields.1].kind
    &&& pre <= fields.2 <= post && seen.ver == states[fields.2].ver
    &&& pre <= fields.3 <= post && seen.payload_len == states[fields.3].payload_len
    &&& seen.payload@.len() == states[pre].payload@.len()
    &&& forall|i: int|
        0 <= i < seen.payload@.len() ==> pre <= bytes(i) <= post && #[trigger] seen.payload@[i]
            == states[bytes(i)].payload@[i]
}

/// Sequences never go back, and content changes only under an odd one.
proof fn lemma_history(states: Seq<ShmSlot>, from: int, to: int)
    requires
        slot_history(states),
        0 <= from <= to < states.len(),
    ensures
        states[from].seq <= states[to].seq,
        states[from].seq == states[to].seq && states[from].seq % 2 == 0 ==> same_content(
            states[from],
            states[to],
        ),
    decreases to - from,
{
    if from < to {
        lemma_history(states, from, to - 1);
        assert(slot_step(states[to - 1], states[to - 1 + 1]));
    }
}

/// Reads are whole: whatever a writer does while a reader copies a slot piece by
/// piece, content that the reader accepts is what the slot held, committed, when the
/// reader began.
pub proof fn law_accepted_reads_are_whole(
    states: Seq<ShmSlot>,
    seen: ShmSlot,
    pre: int,
    post: int,
    fields: (int, int, int, int),
    bytes: spec_fn(int) -> int,
)
    requires
        slot_history(states),
        seen_between(states, seen, pre, post, fields, bytes),
    ensures
        committed(seen, states[post].seq) is Some ==> committed(seen, states[post].seq)
            == committed(states[pre], states[pre].seq),
{
    if committed(seen, states[post].seq) is Some {
        assert forall|k: int| pre <= k <= post implies same_content(
            states[pre],
            #[trigger] states[k],
        ) by {
            lemma_history(states, pre, k);
            lemma_history(states, k, post);
        }
        assert(seen.payload@ =~= states[pre].payload@);
    }
}

/// A planned write follows the protocol: marking the slot, filling it and committing
/// it is a history, for every slot that no later write has reached.
pub proof fn law_planned_writes_follow_the_protocol(
    before: ShmSlot,
    marked: ShmSlot,
    filled: ShmSlot,
    done: ShmSlot,
    counter: u64,
)
    requires
        before.seq % 2 == 0,
        before.seq < writing_seq(counter as int),
        marked.seq == writing_seq(counter as int),
        same_content(before, marked),
        filled.seq == marked.seq,
        done.seq == committed_seq(counter as int),
        same_content(filled, done),
    ensures
        slot_history(seq![before, marked, filled, done]),
{
}

/// Tearing is detected: content is accepted only where the same even, non-zero
/// sequence was seen on both sides of it. A slot that is being written, for
/// whatever counter, gives nothing.
pub proof fn law_torn_slots_are_rejected(slot: ShmSlot, seq_post: u64, counter: u64)
    ensures
        committed(slot, seq_post) is Some ==> slot.seq == seq_post && slot.seq % 2 == 0 && slot.seq
            != 0,
        slot.seq != seq_post ==> committed(slot, seq_post) is None,
        slot.seq == writing_seq(counter as int) ==> committed(slot, seq_post) is None,
{
}

/// Sequences order the writes of a slot: no two counters share one, and a later
/// write never looks like an earlier one.
pub proof fn law_sequences_order_writes(earlier: int, later: int)
    requires
        0 <= earlier < later,
    ensures
        writing_seq(earlier) < committed_seq(earlier),
        committed_seq(earlier) < writing_seq(later),
{
}

/// A position is delivered only from the write of that very counter: a slot whose
/// sequence stands for another counter, or for a write in progress, never reads as
/// ready.
pub proof fn law_ready_positions_carry_their_own_write(slot: ShmSlot, seq_post: u64, counter: u64)
    ensures
        slot_state(slot, seq_post, counter) matches RingReadView::Ready(frame) ==> slot.seq
            == committed_seq(counter as int) && committed(slot, seq_post) == Some(frame),
        slot.seq == writing_seq(counter as int) ==> slot_state(slot, seq_post, counter) is Pending,
        slot.seq == seq_post && slot.seq > committed_seq(counter as int) ==> slot_state(
            slot,
            seq_post,
            counter,
        ) is Unavailable,
{
}

/// A shared-memory ring reads as any other ring does, as long as its counters fit
/// the identifier's counter field.
pub proof fn law_shared_memory_rings_read_like_rings(view: RingView, counter: u64, id: NetId64)
    requires
        view.consistent(),
        view.head() <= id::COUNTER_SPAN,
        counter < id::COUNTER_SPAN,
        id.spec_counter() < view.head() ==> view.log[id.spec_counter() as int].id.spec_node()
            == id.spec_node(),
    ensures
        position_state(view, counter) == view.state_at(counter),
        at_counter(view, id) == view.lookup(id),
{
    let capacity = view.spec.capacity as nat;
    lemma_newest_position(view.log, capacity, counter as nat);
    if let Some(at) = newest_position(view.head(), capacity, counter as nat) {
        vstd::arithmetic::div_mod::lemma_small_mod(at, id::COUNTER_SPAN as nat);
        assert(view.log[at as int].id.spec_counter() == at);
    }
    let sought = id.spec_counter() as nat;
    lemma_newest_position(view.log, capacity, sought);
    if let Some(at) = newest_position(view.head(), capacity, sought) {
        vstd::arithmetic::div_mod::lemma_small_mod(at, id::COUNTER_SPAN as nat);
        let found = view.log[at as int].id;
        assert(found.spec_counter() == at);
        if found.spec_counter() == id.spec_counter() && id.spec_kind() == view.kind {
            id::lemma_fields_determine(found, id);
        }
    }
}

/// Whole slots are accepted: a slot whose sequence is even, not zero and the same on both
/// sides of its content, and whose length is one that its payload can have, gives the
/// frame that its fields say.
pub proof fn law_whole_slots_are_accepted(slot: ShmSlot, seq_post: u64)
    ensures
        committed(slot, seq_post) == (if slot.seq == seq_post && slot.seq > 0 && slot.seq % 2 == 0
            && slot.payload_len <= 256 && slot.payload_len <= slot.payload@.len() {
            Some(
                FrameView {
                    id: NetId64::of_raw(slot.id),
                    kind: slot.kind,
                    ver: slot.ver,
                    payload: slot.payload@.take(slot.payload_len as int),
                },
            )
        } else {
            None
        }),
{
    if slot.payload_len <= slot.payload@.len() {
        assert(slot.payload@.take(slot.payload_len as int) =~= slot.payload@.subrange(
            0,
            slot.payload_len as int,
        ));
    }
}

/// How a position reads is a matter of sequences: the write of `counter` is marked with
/// twice the counter and one, and committed with one more. A slot that moved under the
/// reader, or stands at an earlier mark, is pending; one that stands beyond is
/// unavailable; one that is committed for this counter is ready, unless its length is
/// corrupt.
pub proof fn law_positions_read_by_their_sequence(slot: ShmSlot, seq_post: u64, counter: u64)
    ensures
        slot.seq != seq_post ==> slot_state(slot, seq_post, counter) is Pending,
        slot.seq == seq_post && slot.seq < 2 * counter + 2 ==> slot_state(
            slot,
            seq_post,
            counter,
        ) is Pending,
        slot.seq == seq_post && slot.seq > 2 * counter + 2 ==> slot_state(
            slot,
            seq_post,
            counter,
        ) is Unavailable,
        slot.seq == seq_post && slot.seq == 2 * counter + 2 ==> slot_state(slot, seq_post, counter)
            == (match committed(slot, seq_post) {
            Some(frame) => RingReadView::Ready(frame),
            None => RingReadView::Unavailable,
        }),
        writing_seq(counter as int) == 2 * counter + 1,
        committed_seq(counter as int) == 2 * counter + 2,
        stored_seq(counter as int) == (if 2 * counter + 2 <= u64::MAX {
            2 * counter + 2
        } else {
            0
        }),
        counter_fits(counter as int) <==> 2 * counter + 1 <= u64::MAX,
{
}

/// A write to shared memory is read back: the position that was claimed reads as ready
/// with the identifier, the class, the version and the payload of the write, the head has
/// moved on by one, and every other slot is as it was.
pub proof fn law_a_shared_memory_write_is_read_back(
    before: ShmRing,
    after: ShmRing,
    result: Result<NetId64, IoError>,
    node: u16,
    frame_kind: u8,
    ver: u64,
    payload: Seq<u8>,
    other: int,
)
    requires
        before.attached(),
        payload.len() <= 256,
        2 * before.spec_segment().spec_header().write_pos + 2 <= u64::MAX,
        writes(before, after, result, node, frame_kind, ver, payload),
    ensures
        ({
            let counter = before.spec_segment().spec_header().write_pos;
            let slots = before.spec_segment().spec_slots();
            &&& result == Ok::<NetId64, IoError>(
                NetId64::minted(before@.kind, node, counter as nat),
            )
            &&& after.source_state_at(counter) == RingReadView::Ready(
                FrameView {
                    id: NetId64::minted(before@.kind, node, counter as nat),
                    kind: frame_kind,
                    ver,
                    payload,
                },
            )
            &&& after.source_head() == counter + 1
            &&& 0 <= other < slots.len() && other != counter as int % slots.len() as int
                ==> after.spec_segment().spec_slots()[other] == slots[other]
        }),
{
}

/// A payload that does not fit a slot is refused: more than 256 bytes change nothing and
/// are invalid input.
pub proof fn law_shared_memory_payloads_are_bounded(
    before: ShmRing,
    after: ShmRing,
    result: Result<NetId64, IoError>,
    node: u16,
    frame_kind: u8,
    ver: u64,
    payload: Seq<u8>,
)
    requires
        writes(before, after, result, node, frame_kind, ver, payload),
    ensures
        payload.len() > 256 ==> after == before && result is Err && result->Err_0.kind
            == IoErrorKind::InvalidInput,
        payload.len() <= 256 ==> result is Ok,
{
}

/// A segment is attached to exactly where its header has the mark and the version of a
/// ring segment and the kind and capacity that are asked for, wherever its head stands.
pub proof fn law_only_ring_segments_are_attached(
    name: Seq<char>,
    header: ShmRingHeader,
    kind: u8,
    capacity: usize,
)
    ensures
        header_complaint(name, header, kind, capacity) is None <==> header.magic == MAGIC
            && header.version == 1 && header.kind == kind && header.capacity == capacity,
        segment_size(capacity as int) == 64 + 320 * capacity,
{
}

/// Shared-memory lookups go by the counter: an identifier of the ring's kind gives what
/// the position that it names holds while that is one of the last `capacity` ones, and
/// nothing otherwise.
pub proof fn law_shared_memory_lookups_go_by_the_counter(view: RingView, id: NetId64)
    requires
        view.consistent(),
        view.log.len() <= id::COUNTER_SPAN,
    ensures
        ({
            let counter = id.spec_counter() as int;
            at_counter(view, id) == (if id.spec_kind() == view.kind && counter < view.log.len()
                && view.log.len() <= counter + view.spec.capacity {
                Some(view.log[counter])
            } else {
                None
            })
        }),
{
    let counter = id.spec_counter() as nat;
    if counter < view.log.len() {
        let written = view.log[counter as int].id;
        vstd::arithmetic::div_mod::lemma_small_mod(counter, id::COUNTER_SPAN as nat);
        assert(written.spec_counter() == counter);
        law_shared_memory_rings_read_like_rings(view, id.spec_counter(), written);
        ring::law_lookups_are_exact(view, written);
    } else {
        ring::law_unwritten_positions_are_pending(view, counter);
    }
}

/// A reader gets what a look gives: with a whole look at any attempt it ends with the
/// first such frame, and only without one does it end with nothing.
pub proof fn law_readers_miss_no_whole_look(
    looks: spec_fn(int) -> Option<FrameView>,
    at: int,
    attempts_left: u32,
    k: int,
)
    requires
        at <= k <= at + attempts_left,
        looks(k) is Some,
        forall|j: int| at <= j < k ==> #[trigger] looks(j) is None,
    ensures
        read_outcome(looks, at, attempts_left) == looks(k),
    decreases attempts_left,
{
    if at < k {
        assert(looks(at) is None);
        law_readers_miss_no_whole_look(looks, at + 1, (attempts_left - 1) as u32, k);
    }
}

/// Opening a ring takes what is there: a name without a segment gives a new empty ring; a
/// segment whose header has the mark, the version, the kind and the capacity that are
/// asked for is attached to as it is; and any other segment stays where it is and is
/// refused as invalid data.
pub proof fn law_opening_takes_what_is_there(
    name: Seq<char>,
    kind: u8,
    capacity: usize,
    before: Option<ShmSegment>,
    after: Option<ShmSegment>,
    result: Result<ShmRing, IoError>,
)
    requires
        opens(name, kind, capacity, before, after, result),
    ensures
        before is None ==> after is None && result is Ok && result->Ok_0.spec_created()
            && result->Ok_0@.kind == kind && result->Ok_0@.spec.capacity == capacity
            && result->Ok_0@.spec.payload_capacity == 256 && result->Ok_0@.log.len() == 0,
        before matches Some(segment) ==> {
            let header = segment.spec_header();
            let fits = header.magic == MAGIC && header.version == 1 && header.kind == kind
                && header.capacity == capacity;
            &&& fits ==> after is None && result is Ok && !result->Ok_0.spec_created()
                && result->Ok_0.spec_segment() == segment && result->Ok_0@.kind == kind
                && result->Ok_0@.spec.capacity == capacity
            &&& !fits ==> after == before && result is Err && result->Err_0.kind
                == IoErrorKind::InvalidData
        },
{
}

} // verus!
