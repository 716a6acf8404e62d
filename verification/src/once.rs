//! Run something at most once.
use vstd::prelude::*;

verus! {

/// Remembers whether its action already ran.
pub struct Once(bool);

impl Once {
    /// Whether the action already ran.
    pub closed spec fn done(&self) -> bool {
        self.0
    }

    pub fn new() -> (r: Self)
        ensures
            !r.done(),
    {
        Self(false)
    }

    /// Claim the action: `true` exactly for the first claim, after which the action must be
    /// run by the caller.
    pub fn exec(&mut self) -> (r: bool)
        ensures
            r == !old(self).done(),
            final(self).done(),
    {
        if !self.0 {
            self.0 = true;
            true
        } else {
            false
        }
    }
}

/// Of two claims, one after the other, at most the first succeeds.
pub proof fn lemma_runs_at_most_once(first: Once, second: Once, r1: bool, r2: bool)
    requires
        r1 == !first.done(),
        second.done(),
        r2 == !second.done(),
    ensures
        !r2,
{
}

} // verus!
