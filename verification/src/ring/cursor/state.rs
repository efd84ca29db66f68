use vstd::prelude::*;

verus! {

/// Caller-owned position in a ring walk.
///
/// The cursor holds the next counter a reader should attempt. Different
/// subscribers keep independent cursors over the same ring.
#[derive(Clone, Copy, Debug, PartialEq, Eq, Structural)]
pub struct RingCursor {
    next_counter: u64,
}

impl RingCursor {
    /// The next counter of this cursor.
    pub closed spec fn spec_next(self) -> u64 {
        self.next_counter
    }

    /// Start at counter 0 and replay whatever history is still available.
    pub fn from_start() -> (cursor: RingCursor)
        ensures
            cursor.spec_next() == 0,
    {
        RingCursor { next_counter: 0 }
    }

    /// Start from a known next counter.
    pub fn from_counter(next_counter: u64) -> (cursor: RingCursor)
        ensures
            cursor.spec_next() == next_counter,
    {
        RingCursor { next_counter }
    }

    /// The next counter this cursor will read.
    #[verifier::when_used_as_spec(spec_next)]
    pub fn next_counter(self) -> (next_counter: u64)
        ensures
            next_counter == self.spec_next(),
    {
        self.next_counter
    }

    pub(crate) fn set_next_counter(&mut self, next_counter: u64)
        ensures
            final(self).spec_next() == next_counter,
    {
        self.next_counter = next_counter;
    }
}

impl Default for RingCursor {
    /// A cursor at counter 0.
    fn default() -> (cursor: RingCursor)
        ensures
            cursor.spec_next() == 0,
    {
        RingCursor::from_start()
    }
}

} // verus!
