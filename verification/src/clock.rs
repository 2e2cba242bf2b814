//! How much of its budget a benchmark has spent.

use vstd::prelude::*;

verus! {

/// The longest duration there is, in nanoseconds.
pub const MAX_DURATION_NS: u128 = 18_446_744_073_709_551_615_999_999_999;

/// What a benchmark has spent, charged only while it is being polled.
///
/// Benchmarks of a suite take turns, so the time between one's turns is
/// somebody else's. All times are in nanoseconds; `now` is what a monotonic
/// clock reads.
#[derive(Debug, Clone, Copy, PartialEq, Eq)]
pub struct Clock {
    poll_started: Option<u128>,
    spent: u128,
    max: u128,
}

/// The values of a [`Clock`].
#[verifier::ext_equal]
pub struct ClockView {
    /// When the turn being taken began, if one is.
    pub poll_started: Option<u128>,
    /// What earlier turns spent.
    pub spent: nat,
    /// The budget.
    pub max: nat,
}

impl View for Clock {
    type V = ClockView;

    closed spec fn view(&self) -> ClockView {
        ClockView {
            poll_started: self.poll_started,
            spent: self.spent as nat,
            max: self.max as nat,
        }
    }
}

impl ClockView {
    /// What this turn has taken, which is nothing between turns.
    pub open spec fn this_poll(self, now: u128) -> nat {
        match self.poll_started {
            Some(started) if started < now => (now - started) as nat,
            _ => 0,
        }
    }

    /// What has been spent, this turn included.
    pub open spec fn total(self, now: u128) -> nat {
        self.spent + self.this_poll(now)
    }
}

impl Clock {
    /// A clock that has spent nothing of `max`.
    pub fn new(max: u128) -> (c: Clock)
        ensures
            c@ == (ClockView { poll_started: None, spent: 0, max: max as nat }),
    {
        Clock { poll_started: None, spent: 0, max }
    }

    /// What this turn has taken.
    pub fn this_poll(&self, now: u128) -> (elapsed: u128)
        ensures
            elapsed == self@.this_poll(now),
    {
        match self.poll_started {
            Some(started) => if started < now {
                now - started
            } else {
                0
            },
            None => 0,
        }
    }

    /// What has been spent, this turn included.
    pub fn spent(&self, now: u128) -> (spent: u128)
        requires
            self@.total(now) <= MAX_DURATION_NS,
        ensures
            spent == self@.total(now),
    {
        self.spent + self.this_poll(now)
    }

    /// Whether the budget is spent.
    pub fn exhausted(&self, now: u128) -> (out: bool)
        requires
            self@.total(now) <= MAX_DURATION_NS,
        ensures
            out == (self@.total(now) >= self@.max),
    {
        self.spent(now) >= self.max
    }

    /// The budget.
    pub fn budget(&self) -> (max: u128)
        ensures
            max == self@.max,
    {
        self.max
    }

    /// Begin a turn.
    pub fn begin_poll(&mut self, now: u128)
        ensures
            final(self)@ == (ClockView { poll_started: Some(now), ..old(self)@ }),
    {
        self.poll_started = Some(now);
    }

    /// End the turn, and charge what it took.
    pub fn end_poll(&mut self, now: u128)
        requires
            old(self)@.total(now) <= MAX_DURATION_NS,
        ensures
            final(self)@ == (ClockView {
                poll_started: None,
                spent: old(self)@.total(now),
                ..old(self)@
            }),
    {
        self.spent = self.spent(now);
        self.poll_started = None;
    }
}

/// The budget of a comparison: that of each of its alternatives, together,
/// held at the longest duration there is.
pub open spec fn group_budget(max_time: nat, alternatives: nat) -> nat {
    if max_time * alternatives > MAX_DURATION_NS {
        MAX_DURATION_NS as nat
    } else {
        max_time * alternatives
    }
}

/// The budget of a comparison of so many alternatives.
///
/// As many times the budget of one, because that many timings come out of it.
/// A budget too large to hold is held at the longest duration there is.
pub fn budget_for(max_time: u128, alternatives: usize) -> (budget: u128)
    ensures
        budget == group_budget(max_time as nat, alternatives as nat),
{
    match max_time.checked_mul(alternatives as u128) {
        Some(whole) => if whole > MAX_DURATION_NS {
            MAX_DURATION_NS
        } else {
            whole
        },
        None => MAX_DURATION_NS,
    }
}

/// Only turns are charged: between one turn's end and the next one's
/// beginning, what has been spent does not depend on the time.
pub proof fn law_only_turns_are_charged(c: ClockView, end: u128, later: u128, start: u128)
    ensures
        ({
            let ended = ClockView { poll_started: None, spent: c.total(end), ..c };
            let begun = ClockView { poll_started: Some(start), ..ended };
            &&& ended.total(later) == c.total(end)
            &&& begun.total(start) == c.total(end)
        }),
{
}

/// What has been spent never shrinks as time goes on, so a spent budget stays
/// spent.
pub proof fn law_a_spent_budget_stays_spent(c: ClockView, now: u128, later: u128)
    requires
        now <= later,
        c.total(now) >= c.max,
    ensures
        c.total(later) >= c.max,
{
}

/// A turn costs what passes between its beginning and its end, on top of what
/// was spent before it; a clock that went backwards costs nothing.
pub proof fn law_a_turn_costs_its_length(c: ClockView, start: u128, end: u128)
    ensures
        ({
            let begun = ClockView { poll_started: Some(start), ..c };
            &&& start <= end ==> begun.total(end) == c.spent + (end - start)
            &&& end <= start ==> begun.total(end) == c.spent
            &&& start <= end ==> begun.this_poll(end) == end - start
        }),
{
}

/// The budget of one alternative is what was asked for, and every further one
/// adds as much, up to the longest duration there is and no further: as many
/// seconds as 64 bits count, and the nanoseconds short of one more.
pub proof fn law_every_alternative_adds_its_budget(max_time: nat, alternatives: nat)
    ensures
        group_budget(max_time, 0) == 0,
        max_time <= MAX_DURATION_NS ==> group_budget(max_time, 1) == max_time,
        group_budget(max_time, alternatives) + max_time <= MAX_DURATION_NS ==> group_budget(
            max_time,
            alternatives + 1,
        ) == group_budget(max_time, alternatives) + max_time,
        group_budget(max_time, alternatives) + max_time > MAX_DURATION_NS ==> group_budget(
            max_time,
            alternatives + 1,
        ) == MAX_DURATION_NS,
        group_budget(max_time, alternatives) <= MAX_DURATION_NS,
        MAX_DURATION_NS == u64::MAX * 1_000_000_000 + 999_999_999,
{
    assert(max_time * (alternatives + 1) == max_time * alternatives + max_time)
        by (nonlinear_arith);
    assert(max_time * 0 == 0) by (nonlinear_arith);
}

} // verus!
