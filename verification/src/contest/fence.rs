//! Fencing tokens for contest tenures.
//!
//! A lease alone cannot protect a shared resource: a holder can stall past its
//! expiry, lose the tenure to a new holder, then resume and write stale data. A
//! fencing token closes that gap. Every tenure carries a token; the protected
//! resource records the highest token it has honoured and rejects any write that
//! carries a lower one.

use vstd::prelude::*;

use crate::text;

verus! {

/// A monotonic fencing token identifying one contest tenure.
#[derive(Clone, Copy, Debug, PartialEq, Eq, Structural, PartialOrd, Ord, Hash)]
pub struct FenceToken {
    value: u64,
}

impl FenceToken {
    /// The number of this token.
    pub closed spec fn spec_get(self) -> u64 {
        self.value
    }

    pub fn new(value: u64) -> (token: FenceToken)
        ensures
            token.spec_get() == value,
    {
        FenceToken { value }
    }

    #[verifier::when_used_as_spec(spec_get)]
    pub fn get(self) -> (value: u64)
        ensures
            value == self.spec_get(),
    {
        self.value
    }

    /// The text `fence:` and the number.
    pub fn to_text(self) -> (out: String)
        ensures
            out@ == "fence:"@ + text::decimal(self.spec_get() as nat),
    {
        let mut out = "fence:".to_owned();
        text::append_decimal(&mut out, self.value);
        out
    }
}

/// Whether a fence at `high_water` honours a token.
pub open spec fn honours(high_water: u64, token: u64) -> bool {
    token >= high_water
}

/// The mark of a fence after it has seen a token.
pub open spec fn raised(high_water: u64, token: u64) -> u64 {
    if token > high_water {
        token
    } else {
        high_water
    }
}

/// The mark of a fence after it has seen several tokens, oldest first.
pub open spec fn raised_by_all(high_water: u64, tokens: Seq<u64>) -> u64
    decreases tokens.len(),
{
    if tokens.len() == 0 {
        high_water
    } else {
        raised(raised_by_all(high_water, tokens.drop_last()), tokens.last())
    }
}

/// A fence honours a token exactly where no higher token, nor a higher persisted
/// mark, has been seen before: a superseded holder stays out for good.
pub proof fn law_a_fence_rejects_superseded_tokens(high_water: u64, tokens: Seq<u64>, token: u64)
    ensures
        honours(raised_by_all(high_water, tokens), token) <==> token >= high_water && forall|i: int|
            0 <= i < tokens.len() ==> token >= #[trigger] tokens[i],
    decreases tokens.len(),
{
    if tokens.len() > 0 {
        let before = tokens.drop_last();
        law_a_fence_rejects_superseded_tokens(high_water, before, token);
        if honours(raised_by_all(high_water, tokens), token) {
            assert forall|i: int| 0 <= i < tokens.len() implies token >= #[trigger] tokens[i] by {
                if i < before.len() {
                    assert(tokens[i] == before[i]);
                }
            }
        } else if token >= high_water && (forall|i: int|
            0 <= i < tokens.len() ==> token >= #[trigger] tokens[i]) {
            assert forall|i: int| 0 <= i < before.len() implies token >= #[trigger] before[i] by {
                assert(tokens[i] == before[i]);
            }
            assert(token >= tokens[tokens.len() - 1]);
        }
    }
}

/// Resource-side high-water mark that enforces fencing.
///
/// Place one in front of the resource a contest subject protects. Call
/// [`Fence::try_admit`] with the writer's token before applying its write, and apply
/// the write only when it returns `true`.
#[derive(Debug)]
pub struct Fence {
    high_water: u64,
}

impl Fence {
    /// The highest token honoured so far.
    pub closed spec fn spec_high_water(&self) -> u64 {
        self.high_water
    }

    /// A fresh fence that has honoured no writes yet.
    pub fn new() -> (fence: Fence)
        ensures
            fence.spec_high_water() == 0,
    {
        Fence { high_water: 0 }
    }

    /// A fence restored from a persisted high-water mark.
    pub fn with_high_water(token: u64) -> (fence: Fence)
        ensures
            fence.spec_high_water() == token,
    {
        Fence { high_water: token }
    }

    /// Admit a write fenced by `token`. Returns `true` and advances the
    /// high-water mark exactly where the token is at least every token admitted
    /// before; returns `false` for a stale token of a superseded holder.
    pub fn try_admit(&mut self, token: FenceToken) -> (admitted: bool)
        ensures
            admitted == honours(old(self).spec_high_water(), token.spec_get()),
            final(self).spec_high_water() == raised(
                old(self).spec_high_water(),
                token.spec_get(),
            ),
    {
        let previous: u64 = self.high_water;
        if token.value > previous {
            self.high_water = token.value;
        }
        token.value >= previous
    }

    /// The highest token honoured so far.
    #[verifier::when_used_as_spec(spec_high_water)]
    pub fn high_water(&self) -> (token: u64)
        ensures
            token == self.spec_high_water(),
    {
        self.high_water
    }
}

impl Default for Fence {
    /// A fresh fence.
    fn default() -> (fence: Fence)
        ensures
            fence.spec_high_water() == 0,
    {
        Fence::new()
    }
}

/// A fence remembers the highest token it has seen, and admits equal ones again: the
/// mark is one of the tokens or the mark it started from, and none of them is above it.
pub proof fn law_a_fence_remembers_the_highest_token(high_water: u64, tokens: Seq<u64>)
    ensures
        ({
            let mark = raised_by_all(high_water, tokens);
            &&& mark >= high_water
            &&& forall|i: int| 0 <= i < tokens.len() ==> mark >= #[trigger] tokens[i]
            &&& mark == high_water || tokens.contains(mark)
            &&& honours(mark, mark)
            &&& forall|token: u64| honours(mark, token) <==> token >= mark
        }),
    decreases tokens.len(),
{
    if tokens.len() > 0 {
        let before = tokens.drop_last();
        law_a_fence_remembers_the_highest_token(high_water, before);
        let mark = raised_by_all(high_water, tokens);
        assert forall|i: int| 0 <= i < tokens.len() implies mark >= #[trigger] tokens[i] by {
            if i < before.len() {
                assert(tokens[i] == before[i]);
            }
        }
        if before.contains(mark) {
            let i = choose|i: int| 0 <= i < before.len() && before[i] == mark;
            assert(tokens[i] == mark);
        } else if mark != high_water {
            assert(tokens[tokens.len() - 1] == mark);
        }
    }
}

} // verus!
