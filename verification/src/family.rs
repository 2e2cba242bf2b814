//! How many comparisons are judged together.
//!
//! With many comparisons some would seem to differ by chance alone, so each
//! is judged by a threshold that depends on how many there are. That number
//! is promised before the first one is made.

use vstd::prelude::*;

verus! {

/// How many comparisons were promised, and how many have been made.
#[derive(Debug, Clone, Copy, PartialEq, Eq)]
pub struct Family {
    made: u64,
    planned: u64,
    by_caller: bool,
}

/// The values of a [`Family`].
#[verifier::ext_equal]
pub struct FamilyView {
    /// How many have been claimed.
    pub made: nat,
    /// How many were promised.
    pub planned: nat,
    /// Whether the caller made the promise, rather than a suite that counted
    /// its own.
    pub by_caller: bool,
}

impl View for Family {
    type V = FamilyView;

    closed spec fn view(&self) -> FamilyView {
        FamilyView {
            made: self.made as nat,
            planned: self.planned as nat,
            by_caller: self.by_caller,
        }
    }
}

impl FamilyView {
    /// The family nothing was promised for.
    pub open spec fn unplanned() -> FamilyView {
        FamilyView { made: 0, planned: 0, by_caller: false }
    }
}

impl Default for Family {
    fn default() -> (f: Family)
        ensures
            f@ == FamilyView::unplanned(),
    {
        Family { made: 0, planned: 0, by_caller: false }
    }
}

impl Family {
    /// Promise a number of comparisons.
    ///
    /// What comes back is a family of its own, so that one kept as a template
    /// can be planned several different ways. A caller promises once.
    pub fn with_comparisons_planned(self, comparisons: u64) -> (f: Family)
        requires
            !self@.by_caller,
        ensures
            f@ == (FamilyView { made: 0, planned: comparisons as nat, by_caller: true }),
    {
        Family { made: 0, planned: comparisons, by_caller: true }
    }

    /// How many were promised.
    pub fn num_comparisons_planned(&self) -> (planned: u64)
        ensures
            planned == self@.planned,
    {
        self.planned
    }

    /// Whether the caller made the promise, rather than a suite.
    pub fn plan_set_by_caller(&self) -> (by_caller: bool)
        ensures
            by_caller == self@.by_caller,
    {
        self.by_caller
    }

    /// Record how many there will be.
    pub fn set_comparisons_planned(&mut self, comparisons: u64)
        ensures
            final(self)@ == (FamilyView { planned: comparisons as nat, ..old(self)@ }),
    {
        self.planned = comparisons;
    }

    /// Promise some more, and say what the total became.
    pub fn add_comparisons_planned(&mut self, comparisons: u64) -> (total: u64)
        requires
            old(self)@.planned + comparisons <= u64::MAX,
        ensures
            total == old(self)@.planned + comparisons,
            final(self)@ == (FamilyView { planned: total as nat, ..old(self)@ }),
    {
        self.planned = self.planned + comparisons;
        self.planned
    }

    /// Claim `n` comparisons, and say how many had been claimed already.
    ///
    /// That number seeds each comparison's random stream, so that two in a
    /// row do not draw the same order.
    pub fn claim_comparisons(&mut self, n: u64) -> (prior: u64)
        ensures
            prior == old(self)@.made,
            final(self)@ == (FamilyView {
                made: ((old(self)@.made + n) % 0x1_0000_0000_0000_0000) as nat,
                ..old(self)@
            }),
    {
        let prior: u64 = self.made;
        self.made = prior.wrapping_add(n);
        prior
    }
}

} // verus!
