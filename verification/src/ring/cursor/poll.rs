use vstd::prelude::*;

use crate::ring::{Frame, FrameView};

verus! {

/// Counters skipped while walking a ring.
#[derive(Clone, Copy, Debug, PartialEq, Eq, Structural)]
pub struct RingLoss {
    /// Counters older than the current ring window.
    pub overwritten: u64,
    /// Counters inside the readable window whose slot was definitively
    /// unavailable, wrapped, corrupt, or carried an unexpected frame id.
    pub unavailable: u64,
}

impl RingLoss {
    /// The total as an integer that saturates at the largest `u64`.
    pub open spec fn spec_total(self) -> u64 {
        if self.overwritten + self.unavailable > u64::MAX {
            u64::MAX
        } else {
            (self.overwritten + self.unavailable) as u64
        }
    }

    /// No loss at all.
    pub fn none() -> (loss: RingLoss)
        ensures
            loss == (RingLoss { overwritten: 0, unavailable: 0 }),
    {
        RingLoss { overwritten: 0, unavailable: 0 }
    }

    /// All the counters lost, saturating.
    #[verifier::when_used_as_spec(spec_total)]
    pub fn total(self) -> (total: u64)
        ensures
            total == self.spec_total(),
    {
        self.overwritten.saturating_add(self.unavailable)
    }

    /// Whether nothing was lost.
    pub fn is_empty(self) -> (empty: bool)
        ensures
            empty == (self.overwritten == 0 && self.unavailable == 0),
    {
        self.overwritten == 0 && self.unavailable == 0
    }
}

impl Default for RingLoss {
    fn default() -> (loss: RingLoss)
        ensures
            loss == (RingLoss { overwritten: 0, unavailable: 0 }),
    {
        RingLoss::none()
    }
}

/// The values of a list of frames.
pub open spec fn frame_views(frames: Seq<Frame>) -> Seq<FrameView> {
    frames.map_values(|frame: Frame| frame@)
}

/// Result of walking a cursor toward a ring head.
#[derive(Clone, Debug, PartialEq, Eq)]
pub struct RingPoll {
    pub frames: Vec<Frame>,
    pub loss: RingLoss,
    pub from_counter: u64,
    pub to_counter: u64,
}

/// What a poll gives, as values.
#[verifier::ext_equal]
pub struct RingPollView {
    pub frames: Seq<FrameView>,
    pub loss: RingLoss,
    pub from_counter: u64,
    pub to_counter: u64,
}

impl View for RingPoll {
    type V = RingPollView;

    open spec fn view(&self) -> RingPollView {
        RingPollView {
            frames: frame_views(self.frames@),
            loss: self.loss,
            from_counter: self.from_counter,
            to_counter: self.to_counter,
        }
    }
}

impl Default for RingPoll {
    /// A walk that has not moved.
    fn default() -> (poll: RingPoll)
        ensures
            poll@ == (RingPollView {
                frames: seq![],
                loss: RingLoss { overwritten: 0, unavailable: 0 },
                from_counter: 0,
                to_counter: 0,
            }),
    {
        let poll = RingPoll {
            frames: Vec::new(),
            loss: RingLoss::none(),
            from_counter: 0,
            to_counter: 0,
        };
        proof {
            assert(poll@.frames =~= seq![]);
        }
        poll
    }
}

impl RingPoll {
    /// Whether the walk found nothing: no frame and no loss.
    pub fn is_empty(&self) -> (empty: bool)
        ensures
            empty == (self@.frames.len() == 0 && self.loss.overwritten == 0
                && self.loss.unavailable == 0),
    {
        self.frames.len() == 0 && self.loss.is_empty()
    }
}

/// Losses add up: the total is the plain sum of what was overwritten and what could not
/// be read, as long as that fits.
pub proof fn law_losses_add_up(loss: RingLoss)
    ensures
        loss.overwritten + loss.unavailable <= u64::MAX ==> loss.spec_total() == loss.overwritten
            + loss.unavailable,
        loss.overwritten + loss.unavailable > u64::MAX ==> loss.spec_total() == u64::MAX,
{
}

/// A list of frames is shown frame by frame, in the same order.
pub proof fn law_frames_are_shown_in_place(frames: Seq<Frame>, i: int)
    ensures
        frame_views(frames).len() == frames.len(),
        0 <= i < frames.len() ==> frame_views(frames)[i] == frames[i]@,
{
}

} // verus!
