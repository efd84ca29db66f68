//! Shared-memory segments: their names, and the decisions of opening one.
//!
//! Segments are named `/orbit-{fleet}-{kind}-{uid}`. Scoping by user avoids that a
//! stale segment owned by one user blocks another.
//!
//! Opening a segment alternates system calls and decisions. The decisions are the
//! function [`advance`]: it takes what the last call reported and says what to
//! clean up and what to do next. A segment that this attempt created is removed
//! again where the attempt fails; one that existed before is never removed.

use vstd::prelude::*;

use crate::error::{IoError, IoErrorKind};
use crate::text;

verus! {

/// The conventional name of a ring segment.
pub open spec fn segment_name(fleet_name: Seq<char>, kind: u8, uid: u32) -> Seq<char> {
    "/orbit-"@ + fleet_name + "-"@ + text::decimal(kind as nat) + "-"@ + text::decimal(uid as nat)
}

/// Build the conventional name of a ring segment of user `uid`.
pub fn ring_segment_name(fleet_name: &str, kind: u8, uid: u32) -> (name: String)
    ensures
        name@ == segment_name(fleet_name@, kind, uid),
{
    let mut name = "/orbit-".to_owned();
    name.append(fleet_name);
    name.append("-");
    text::append_decimal(&mut name, kind as u64);
    name.append("-");
    text::append_decimal(&mut name, uid as u64);
    name
}

/// Whether the bytes of a name can be handed to the operating system: none of
/// them is zero.
pub open spec fn name_is_clean(name: Seq<u8>) -> bool {
    forall|i: int| 0 <= i < name.len() ==> #[trigger] name[i] != 0
}

/// Refuse a name that holds a zero byte.
pub fn check_name(name: &str) -> (checked: Result<(), IoError>)
    ensures
        match checked {
            Ok(_) => name_is_clean(vstd::utf8::encode_utf8(name@)),
            Err(error) => !name_is_clean(vstd::utf8::encode_utf8(name@)) && error.kind
                == IoErrorKind::InvalidInput && error.message@ == "shm name has nul byte"@,
        },
{
    let bytes = name.as_bytes();
    let mut i: usize = 0;
    while i < bytes.len()
        invariant
            i <= bytes@.len(),
            bytes@ == vstd::utf8::encode_utf8(name@),
            forall|j: int| 0 <= j < i ==> #[trigger] bytes@[j] != 0,
        decreases bytes@.len() - i,
    {
        if bytes[i] == 0 {
            proof {
                assert(bytes@[i as int] == 0);
            }
            return Err(
                IoError {
                    kind: IoErrorKind::InvalidInput,
                    message: "shm name has nul byte".to_owned(),
                },
            );
        }
        i = i + 1;
    }
    Ok(())
}

/// Decimal text of a size as the operating system reports it.
pub open spec fn size_text(size: i64) -> Seq<char> {
    if size < 0 {
        "-"@ + text::decimal((-size) as nat)
    } else {
        text::decimal(size as nat)
    }
}

/// The refusal of a segment that is smaller than the mapping asked for.
pub open spec fn size_message(name: Seq<char>, actual: i64, size: usize) -> Seq<char> {
    "SHM segment "@ + name + " size "@ + size_text(actual)
        + " is smaller than requested mapping "@ + text::decimal(size as nat)
}

/// Whether a segment is too small for the mapping asked for.
pub open spec fn too_small(actual: i64, size: usize) -> bool {
    actual < 0 || actual < size
}

/// Build the refusal of a segment that is too small.
pub fn size_error(name: &str, actual: i64, size: usize) -> (error: IoError)
    ensures
        error.kind == IoErrorKind::InvalidData,
        error.message@ == size_message(name@, actual, size),
{
    let mut message = "SHM segment ".to_owned();
    message.append(name);
    message.append(" size ");
    let mut shown = String::new();
    if actual < 0 {
        shown.append("-");
        let magnitude: u64 = if actual == i64::MIN {
            0x8000_0000_0000_0000
        } else {
            (-actual) as u64
        };
        text::append_decimal(&mut shown, magnitude);
    } else {
        text::append_decimal(&mut shown, actual as u64);
    }
    proof {
        assert(shown@ =~= size_text(actual));
    }
    message.append(shown.as_str());
    message.append(" is smaller than requested mapping ");
    text::append_decimal(&mut message, size as u64);
    IoError { kind: IoErrorKind::InvalidData, message }
}

/// What an attempt to open a segment does next.
#[derive(Clone, Copy, Debug, PartialEq, Eq, Structural)]
pub enum OpenStep {
    /// Create the segment, unless the name is taken.
    Create,
    /// Open the segment that has the name.
    Attach,
    /// Set the size of the segment just created.
    Resize,
    /// Ask for the size of the segment.
    Stat { created: bool },
    /// Map the segment.
    Mmap { created: bool },
    /// Hand out the mapping.
    Done { created: bool },
    /// Report the failure.
    Failed,
}

/// What the last call of an attempt reported.
#[derive(Clone, Copy, Debug, PartialEq, Eq, Structural)]
pub enum OpenEvent {
    /// The call succeeded.
    Succeeded,
    /// The name is taken.
    AlreadyExists,
    /// The segment has this size.
    Size(i64),
    /// The call failed otherwise.
    Refused,
}

/// What to do after a call: what to clean up, and how to go on.
#[derive(Clone, Copy, Debug, PartialEq, Eq, Structural)]
pub struct OpenOrder {
    /// Close the descriptor.
    pub close: bool,
    /// Remove the segment's name.
    pub unlink: bool,
    /// What to do next.
    pub next: OpenStep,
}

/// The failure of an attempt that holds a descriptor.
pub open spec fn abandoned(created: bool) -> OpenOrder {
    OpenOrder { close: true, unlink: created, next: OpenStep::Failed }
}

/// What to do after a call at `step` reported `event`, for a mapping of `size`
/// bytes.
pub open spec fn order_after(step: OpenStep, event: OpenEvent, size: usize) -> OpenOrder {
    match (step, event) {
        (OpenStep::Create, OpenEvent::Succeeded) => OpenOrder {
            close: false,
            unlink: false,
            next: OpenStep::Resize,
        },
        (OpenStep::Create, OpenEvent::AlreadyExists) => OpenOrder {
            close: false,
            unlink: false,
            next: OpenStep::Attach,
        },
        (OpenStep::Attach, OpenEvent::Succeeded) => OpenOrder {
            close: false,
            unlink: false,
            next: OpenStep::Stat { created: false },
        },
        (OpenStep::Resize, OpenEvent::Succeeded) => OpenOrder {
            close: false,
            unlink: false,
            next: OpenStep::Stat { created: true },
        },
        (OpenStep::Resize, _) => abandoned(true),
        (OpenStep::Stat { created }, OpenEvent::Size(actual)) => if too_small(actual, size) {
            abandoned(created)
        } else {
            OpenOrder { close: false, unlink: false, next: OpenStep::Mmap { created } }
        },
        (OpenStep::Stat { created }, _) => abandoned(created),
        (OpenStep::Mmap { created }, OpenEvent::Succeeded) => OpenOrder {
            close: true,
            unlink: false,
            next: OpenStep::Done { created },
        },
        (OpenStep::Mmap { created }, _) => abandoned(created),
        _ => OpenOrder { close: false, unlink: false, next: OpenStep::Failed },
    }
}

/// Decide what to do after a call at `step` reported `event`, for a mapping of
/// `size` bytes.
pub fn advance(step: OpenStep, event: OpenEvent, size: usize) -> (order: OpenOrder)
    ensures
        order == order_after(step, event, size),
{
    match step {
        OpenStep::Create => match event {
            OpenEvent::Succeeded => OpenOrder {
                close: false,
                unlink: false,
                next: OpenStep::Resize,
            },
            OpenEvent::AlreadyExists => OpenOrder {
                close: false,
                unlink: false,
                next: OpenStep::Attach,
            },
            _ => OpenOrder { close: false, unlink: false, next: OpenStep::Failed },
        },
        OpenStep::Attach => match event {
            OpenEvent::Succeeded => OpenOrder {
                close: false,
                unlink: false,
                next: OpenStep::Stat { created: false },
            },
            _ => OpenOrder { close: false, unlink: false, next: OpenStep::Failed },
        },
        OpenStep::Resize => match event {
            OpenEvent::Succeeded => OpenOrder {
                close: false,
                unlink: false,
                next: OpenStep::Stat { created: true },
            },
            _ => OpenOrder { close: true, unlink: true, next: OpenStep::Failed },
        },
        OpenStep::Stat { created } => match event {
            OpenEvent::Size(actual) => {
                if actual < 0 || (actual as u64) < size as u64 {
                    OpenOrder { close: true, unlink: created, next: OpenStep::Failed }
                } else {
                    OpenOrder { close: false, unlink: false, next: OpenStep::Mmap { created } }
                }
            },
            _ => OpenOrder { close: true, unlink: created, next: OpenStep::Failed },
        },
        OpenStep::Mmap { created } => match event {
            OpenEvent::Succeeded => OpenOrder {
                close: true,
                unlink: false,
                next: OpenStep::Done { created },
            },
            _ => OpenOrder { close: true, unlink: created, next: OpenStep::Failed },
        },
        OpenStep::Done { .. } | OpenStep::Failed => OpenOrder {
            close: false,
            unlink: false,
            next: OpenStep::Failed,
        },
    }
}

/// Whether an attempt that is at `step` holds a descriptor.
pub open spec fn holds_descriptor(step: OpenStep) -> bool {
    step is Resize || step is Stat || step is Mmap
}

/// Whether an attempt that is at `step` has created the segment.
pub open spec fn has_created(step: OpenStep) -> bool {
    match step {
        OpenStep::Resize => true,
        OpenStep::Stat { created } => created,
        OpenStep::Mmap { created } => created,
        OpenStep::Done { created } => created,
        _ => false,
    }
}

/// An attempt leaks nothing: the descriptor is closed exactly when it stops being
/// held, a segment is removed exactly where the attempt created it and fails, and
/// whether the attempt created the segment is remembered to the end.
pub proof fn law_opening_cleans_up(step: OpenStep, event: OpenEvent, size: usize)
    requires
        !(step is Done) && !(step is Failed),
    ensures
        ({
            let order = order_after(step, event, size);
            &&& order.close == (holds_descriptor(step) && !holds_descriptor(order.next))
            &&& order.unlink == (has_created(step) && order.next is Failed)
            &&& holds_descriptor(step) && !(order.next is Failed) ==> has_created(order.next)
                == has_created(step)
        }),
{
}

/// A mapping is handed out only for a segment that is large enough for it, and
/// only a segment that did not exist counts as created.
pub proof fn law_mappings_lie_inside_their_segment(step: OpenStep, event: OpenEvent, size: usize)
    ensures
        order_after(step, event, size).next is Mmap ==> (event matches OpenEvent::Size(actual)
            && actual >= size),
        order_after(step, event, size).next is Done ==> step is Mmap,
        has_created(order_after(step, event, size).next) ==> has_created(step) || (step is Create
            && event is Succeeded),
{
}

/// An attempt that meets no obstacle ends with a mapping: a name that is free is created,
/// sized, measured and mapped, one that is taken is opened, measured and mapped, as long
/// as the segment has the bytes that were asked for. Whatever else a call reports ends
/// the attempt.
pub proof fn law_opening_goes_on_until_it_fails(
    step: OpenStep,
    event: OpenEvent,
    size: usize,
    created: bool,
    actual: i64,
)
    ensures
        order_after(OpenStep::Create, OpenEvent::Succeeded, size).next == OpenStep::Resize,
        order_after(OpenStep::Create, OpenEvent::AlreadyExists, size).next == OpenStep::Attach,
        order_after(OpenStep::Attach, OpenEvent::Succeeded, size).next == (OpenStep::Stat {
            created: false,
        }),
        order_after(OpenStep::Resize, OpenEvent::Succeeded, size).next == (OpenStep::Stat {
            created: true,
        }),
        actual >= size ==> order_after(
            OpenStep::Stat { created },
            OpenEvent::Size(actual),
            size,
        ).next == (OpenStep::Mmap { created }),
        actual < size ==> order_after(
            OpenStep::Stat { created },
            OpenEvent::Size(actual),
            size,
        ).next == OpenStep::Failed,
        order_after(OpenStep::Mmap { created }, OpenEvent::Succeeded, size).next == (
        OpenStep::Done { created }),
        event is Refused ==> order_after(step, event, size).next == OpenStep::Failed,
        event is AlreadyExists && !(step is Create) ==> order_after(step, event, size).next
            == OpenStep::Failed,
        event is Size && !(step is Stat) ==> order_after(step, event, size).next
            == OpenStep::Failed,
        event is Succeeded && step is Stat ==> order_after(step, event, size).next
            == OpenStep::Failed,
{
}

/// Segments do not share a name: of one fleet, the names for different kinds or different
/// users differ, and each begins with the mark of this library and the fleet's name.
pub proof fn law_segments_have_names_of_their_own(
    fleet_name: Seq<char>,
    kind: u8,
    uid: u32,
    other_kind: u8,
    other_uid: u32,
)
    ensures
        ("/orbit-"@ + fleet_name).is_prefix_of(segment_name(fleet_name, kind, uid)),
        segment_name(fleet_name, kind, uid) == segment_name(fleet_name, other_kind, other_uid)
            ==> kind == other_kind && uid == other_uid,
{
    let start = "/orbit-"@ + fleet_name;
    let name = segment_name(fleet_name, kind, uid);
    let other = segment_name(fleet_name, other_kind, other_uid);
    let a = text::decimal(kind as nat);
    let b = text::decimal(uid as nat);
    let c = text::decimal(other_kind as nat);
    let d = text::decimal(other_uid as nat);
    reveal_strlit("-");
    assert(name.subrange(0, start.len() as int) =~= start);
    assert(start =~= name.subrange(0, start.len() as int));
    text::law_decimals_show_their_number(kind as nat);
    text::law_decimals_show_their_number(uid as nat);
    text::law_decimals_show_their_number(other_kind as nat);
    text::law_decimals_show_their_number(other_uid as nat);
    let from = start.len() as int + 1;
    if name == other {
        if a.len() < c.len() {
            assert(name[from + a.len()] == '-');
            assert(other[from + a.len()] == c[a.len() as int]);
        }
        if c.len() < a.len() {
            assert(other[from + c.len()] == '-');
            assert(name[from + c.len()] == a[c.len() as int]);
        }
        assert(a.len() == c.len());
        assert forall|i: int| 0 <= i < a.len() implies a[i] == c[i] by {
            assert(name[from + i] == a[i]);
            assert(other[from + i] == c[i]);
        }
        assert(a =~= c);
        let behind = from + a.len() + 1;
        assert(b.len() == name.len() - behind);
        assert(d.len() == other.len() - behind);
        assert forall|i: int| 0 <= i < b.len() implies b[i] == d[i] by {
            assert(name[behind + i] == b[i]);
            assert(other[behind + i] == d[i]);
        }
        assert(b =~= d);
    }
}

} // verus!
