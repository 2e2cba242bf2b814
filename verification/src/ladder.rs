//! Which sizes a scaling benchmark measures, how often, and what it claims of
//! the result.
//!
//! A sweep has two stages. The first climbs from the smallest size the caller
//! allows to the first one that takes long enough to time; the second
//! measures a ladder of sizes from there until the answer is precise enough.

use crate::text;
use vstd::prelude::*;

verus! {

/// The highest power that is considered.
pub const MAX_DEGREE: usize = 3;

/// The most sizes the climb tries before it gives up going higher.
pub const MAX_CLIMB_STEPS: usize = 8;

/// How many sizes the ladder has.
pub const NUM_SIZES: usize = 6;

/// How often each size is measured before the first fit.
pub const INITIAL_REPEATS: usize = 6;

/// The least a call may take and still be worth measuring, in nanoseconds.
pub const MIN_MEASURABLE_NS: u64 = 20_000;

/// The unit sizes are counted in, for a caller's smallest size.
pub open spec fn unit_of(nmin: nat) -> nat {
    if nmin == 0 {
        1
    } else {
        nmin
    }
}

/// A proposed size, rounded down to the caller's unit but never below it.
pub open spec fn in_units(proposed: nat, step: nat) -> nat {
    if proposed < step {
        step
    } else {
        proposed / step * step
    }
}

/// Round a proposed size down to the caller's unit.
fn round_to_unit(proposed: usize, step: usize) -> (n: usize)
    requires
        step > 0,
    ensures
        n == in_units(proposed as nat, step as nat),
{
    if proposed < step {
        step
    } else {
        proof {
            vstd::arithmetic::div_mod::lemma_fundamental_div_mod(proposed as int, step as int);
            vstd::arithmetic::mul::lemma_mul_is_commutative(
                step as int,
                proposed as int / step as int,
            );
        }
        proposed / step * step
    }
}

/// The climb to the first size worth measuring.
#[derive(Debug, Clone, Copy, PartialEq, Eq)]
pub struct Climb {
    step: usize,
    last: usize,
    taken: usize,
}

/// The values of a [`Climb`].
#[verifier::ext_equal]
pub struct ClimbView {
    /// The caller's unit.
    pub step: nat,
    /// The largest size tried.
    pub last: nat,
    /// How many steps were taken from the smallest size.
    pub taken: nat,
}

impl View for Climb {
    type V = ClimbView;

    closed spec fn view(&self) -> ClimbView {
        ClimbView { step: self.step as nat, last: self.last as nat, taken: self.taken as nat }
    }
}

impl ClimbView {
    /// Whether the climb is at a multiple of its unit, within its bounds.
    pub open spec fn well_formed(self) -> bool {
        &&& self.step > 0
        &&& self.last >= self.step
        &&& self.last % self.step == 0
        &&& self.taken <= MAX_CLIMB_STEPS
        &&& self.taken == 0 <==> self.last == self.step
    }

    /// The size a proposal leads to, if that is a step upwards.
    pub open spec fn upwards(self, proposal: Option<usize>) -> Option<nat> {
        match proposal {
            Some(n) if in_units(n as nat, self.step) > self.last => Some(
                in_units(n as nat, self.step),
            ),
            _ => None,
        }
    }

    /// The next size of the climb, if it goes on.
    pub open spec fn next(
        self,
        over_time: bool,
        measurable: bool,
        proposal: Option<usize>,
    ) -> Option<nat> {
        if self.taken >= MAX_CLIMB_STEPS || over_time || measurable {
            None
        } else {
            self.upwards(proposal)
        }
    }
}

/// An optional size as a number.
pub open spec fn size(n: Option<usize>) -> Option<nat> {
    match n {
        Some(n) => Some(n as nat),
        None => None,
    }
}

impl Climb {
    /// Start at the smallest size the caller allows.
    pub fn new(nmin: usize) -> (c: Climb)
        ensures
            c@ == (ClimbView {
                step: unit_of(nmin as nat),
                last: unit_of(nmin as nat),
                taken: 0,
            }),
            c@.well_formed(),
    {
        let step: usize = if nmin == 0 {
            1
        } else {
            nmin
        };
        proof {
            vstd::arithmetic::div_mod::lemma_mod_self_0(step as int);
        }
        Climb { step, last: step, taken: 0 }
    }

    /// The largest size tried, and so the bottom of the ladder.
    ///
    /// Every size under it was tried and found too cheap to time.
    pub fn largest(&self) -> (n: usize)
        ensures
            n == self@.last,
    {
        self.last
    }

    /// The size of a proposal, if it is a step upwards.
    fn upwards(&self, proposal: Option<usize>) -> (next: Option<usize>)
        requires
            self@.well_formed(),
        ensures
            size(next) == self@.upwards(proposal),
    {
        match proposal {
            Some(n) => {
                let n = round_to_unit(n, self.step);
                if n > self.last {
                    Some(n)
                } else {
                    None
                }
            },
            None => None,
        }
    }

    /// Take the next step, if there is one, given whether time has run out,
    /// whether the last size was long enough to time, and which size would
    /// reach that.
    pub fn next(
        &mut self,
        over_time: bool,
        measurable: bool,
        proposal: Option<usize>,
    ) -> (next: Option<usize>)
        requires
            old(self)@.well_formed(),
        ensures
            final(self)@.well_formed(),
            size(next) == old(self)@.next(over_time, measurable, proposal),
            final(self)@ == match next {
                Some(n) => ClimbView {
                    last: n as nat,
                    taken: old(self)@.taken + 1,
                    ..old(self)@
                },
                None => old(self)@,
            },
    {
        if self.taken >= MAX_CLIMB_STEPS || over_time || measurable {
            return None;
        }
        let next = self.upwards(proposal);
        match next {
            Some(n) => {
                proof {
                    lemma_in_units(proposal->0 as nat, self.step as nat);
                }
                self.last = n;
                self.taken = self.taken + 1;
            },
            None => {},
        }
        next
    }

    /// The size to probe for a growth rate, when the climb never took a step
    /// and so has none.
    ///
    /// The bottom of the ladder does not move: the probe is reconnaissance.
    pub fn probe(&self, proposal: Option<usize>) -> (next: Option<usize>)
        requires
            self@.well_formed(),
        ensures
            size(next) == if self@.taken == 0 {
                self@.upwards(proposal)
            } else {
                None
            },
    {
        if self.taken > 0 {
            None
        } else {
            self.upwards(proposal)
        }
    }
}

/// A multiple of the unit, at least one unit, and no more than proposed
/// unless that is below it.
proof fn lemma_in_units(proposed: nat, step: nat)
    requires
        step > 0,
    ensures
        in_units(proposed, step) % step == 0,
        in_units(proposed, step) >= step,
        proposed >= step ==> in_units(proposed, step) <= proposed < in_units(proposed, step) + step,
{
    if proposed < step {
        vstd::arithmetic::div_mod::lemma_mod_self_0(step as int);
    } else {
        let q = proposed / step;
        vstd::arithmetic::div_mod::lemma_fundamental_div_mod(proposed as int, step as int);
        vstd::arithmetic::div_mod::lemma_mod_multiples_basic(q as int, step as int);
        vstd::arithmetic::mul::lemma_mul_is_commutative(step as int, q as int);
        assert(q >= 1) by (nonlinear_arith)
            requires
                proposed == step * q + proposed % step,
                proposed % step < step,
                proposed >= step,
                step > 0,
        ;
        assert(q * step >= step) by (nonlinear_arith)
            requires
                q >= 1,
                step > 0,
        ;
    }
}

/// A climb only ever goes up, by multiples of the caller's unit, and ends
/// after a fixed number of steps.
pub proof fn law_a_climb_goes_up(
    c: ClimbView,
    over_time: bool,
    measurable: bool,
    proposal: Option<usize>,
)
    requires
        c.well_formed(),
    ensures
        c.next(over_time, measurable, proposal) matches Some(n) ==> n > c.last && n % c.step == 0
            && c.taken < MAX_CLIMB_STEPS,
        measurable || over_time ==> c.next(over_time, measurable, proposal) is None,
{
    if let Some(p) = proposal {
        lemma_in_units(p as nat, c.step);
    }
}

/// A product or sum, held at the largest size there is.
pub open spec fn capped(n: nat) -> nat {
    if n > usize::MAX {
        usize::MAX as nat
    } else {
        n
    }
}

/// The rungs of a ladder in units, without a size that repeats the one before
/// it.
pub open spec fn rungs(quotients: Seq<usize>, step: nat) -> Seq<usize>
    decreases quotients.len(),
{
    if quotients.len() == 0 {
        seq![]
    } else {
        let before = rungs(quotients.drop_last(), step);
        let n = capped(quotients.last() as nat * step) as usize;
        if before.len() > 0 && before.last() == n {
            before
        } else {
            before.push(n)
        }
    }
}

/// The densest ladder there is: consecutive units up from the bottom.
pub open spec fn densest(lo: nat, step: nat) -> Seq<usize> {
    Seq::new(NUM_SIZES as nat, |i: int| capped(lo + capped(i as nat * step)) as usize)
}

/// The sizes of a ladder from `lo`, whose log-spaced rungs are the given
/// multiples of the unit.
pub open spec fn ladder(lo: nat, step: nat, quotients: Seq<usize>) -> Seq<usize> {
    let spaced = rungs(quotients, step);
    if spaced.len() < NUM_SIZES {
        densest(lo, step)
    } else {
        spaced
    }
}

/// Choose the sizes to measure, from the log-spaced rungs in units of `nmin`.
///
/// Rounding onto the unit can land two rungs together. They are one rung
/// then, rather than a size measured twice and taken for two. Where that
/// leaves too few to fit, the ladder is the densest one there is.
pub fn choose_sizes(lo: usize, nmin: usize, quotients: &Vec<usize>) -> (sizes: Vec<usize>)
    requires
        quotients@.len() == NUM_SIZES,
    ensures
        sizes@ == ladder(lo as nat, unit_of(nmin as nat), quotients@),
        sizes@.len() == NUM_SIZES,
{
    let step: usize = if nmin == 0 {
        1
    } else {
        nmin
    };
    let mut sizes: Vec<usize> = Vec::new();
    let mut i: usize = 0;
    assert(quotients@.take(0) =~= Seq::<usize>::empty());
    while i < quotients.len()
        invariant
            i <= quotients@.len(),
            sizes@ == rungs(quotients@.take(i as int), step as nat),
            sizes@.len() <= i,
        decreases quotients.len() - i,
    {
        assert(quotients@.take(i + 1).drop_last() =~= quotients@.take(i as int));
        let n: usize = saturating_product(quotients[i], step);
        if sizes.len() == 0 || sizes[sizes.len() - 1] != n {
            sizes.push(n);
        }
        i += 1;
    }
    assert(quotients@.take(i as int) =~= quotients@);
    if sizes.len() < NUM_SIZES {
        let mut dense: Vec<usize> = Vec::new();
        let mut j: usize = 0;
        while j < NUM_SIZES
            invariant
                j <= NUM_SIZES,
                dense@ =~= densest(lo as nat, step as nat).take(j as int),
            decreases NUM_SIZES - j,
        {
            let above: usize = saturating_product(j, step);
            dense.push(lo.saturating_add(above));
            j += 1;
        }
        assert(densest(lo as nat, step as nat).take(j as int) =~= densest(lo as nat, step as nat));
        dense
    } else {
        sizes
    }
}

/// Multiply, holding the result at the largest size there is.
fn saturating_product(a: usize, b: usize) -> (n: usize)
    ensures
        n == capped(a as nat * b as nat),
{
    match a.checked_mul(b) {
        Some(n) => n,
        None => usize::MAX,
    }
}

/// The ladder always has enough rungs to fit.
///
/// Where nothing was held at the largest size there is and the rungs are in
/// order, it strictly increases, and every rung is a multiple of the caller's
/// unit. Where the first rung is the bottom, so is the first size.
pub proof fn law_a_ladder_fits_and_rises(lo: nat, step: nat, quotients: Seq<usize>)
    requires
        step > 0,
        lo % step == 0,
        quotients.len() == NUM_SIZES,
        forall|i: int, j: int| 0 <= i <= j < quotients.len() ==> quotients[i] <= quotients[j],
        forall|i: int| 0 <= i < quotients.len() ==> #[trigger] quotients[i] * step <= usize::MAX,
        lo + NUM_SIZES * step <= usize::MAX,
    ensures
        ladder(lo, step, quotients).len() == NUM_SIZES,
        forall|i: int, j: int|
            0 <= i < j < NUM_SIZES ==> #[trigger] ladder(lo, step, quotients)[i]
                < #[trigger] ladder(lo, step, quotients)[j],
        forall|i: int|
            0 <= i < NUM_SIZES ==> (#[trigger] ladder(lo, step, quotients)[i]) as nat % step == 0,
        quotients[0] * step == lo ==> ladder(lo, step, quotients)[0] == lo,
{
    lemma_rungs_rise(quotients, step);
    lemma_first_rung(quotients, step);
    if rungs(quotients, step).len() < NUM_SIZES {
        assert forall|i: int| 0 <= i < NUM_SIZES implies (#[trigger] densest(lo, step)[i]) as nat
            == lo + i * step && (lo + i * step) % step as int == 0 by {
            assert(i * step <= NUM_SIZES * step) by (nonlinear_arith)
                requires
                    i <= NUM_SIZES,
            ;
            assert(0 <= i * step) by (nonlinear_arith)
                requires
                    0 <= i,
            ;
            vstd::arithmetic::div_mod::lemma_mod_multiples_vanish(i, lo as int, step as int);
            vstd::arithmetic::mul::lemma_mul_is_commutative(step as int, i);
        }
        assert forall|i: int, j: int| 0 <= i < j < NUM_SIZES implies #[trigger] densest(lo, step)[i]
            < #[trigger] densest(lo, step)[j] by {
            assert(i * step < j * step) by (nonlinear_arith)
                requires
                    i < j,
                    step > 0,
            ;
        }
    }
}

/// The first rung is the first quotient's.
proof fn lemma_first_rung(quotients: Seq<usize>, step: nat)
    requires
        quotients.len() > 0,
    ensures
        rungs(quotients, step).len() > 0,
        rungs(quotients, step)[0] == capped(quotients[0] as nat * step),
    decreases quotients.len(),
{
    if quotients.len() == 1 {
        reveal_with_fuel(rungs, 2);
    } else {
        lemma_first_rung(quotients.drop_last(), step);
    }
}

/// Rungs in order rise strictly, in multiples of the unit, up to the last
/// quotient.
proof fn lemma_rungs_rise(quotients: Seq<usize>, step: nat)
    requires
        step > 0,
        forall|i: int, j: int| 0 <= i <= j < quotients.len() ==> quotients[i] <= quotients[j],
        forall|i: int| 0 <= i < quotients.len() ==> #[trigger] quotients[i] * step <= usize::MAX,
    ensures
        ({
            let r = rungs(quotients, step);
            &&& r.len() <= quotients.len()
            &&& quotients.len() > 0 ==> r.len() > 0 && r.last() == quotients.last() * step
            &&& forall|i: int, j: int| 0 <= i < j < r.len() ==> r[i] < r[j]
            &&& forall|i: int| 0 <= i < r.len() ==> (#[trigger] r[i]) as nat % step == 0
        }),
    decreases quotients.len(),
{
    if quotients.len() > 0 {
        let last = quotients.len() - 1;
        let before = quotients.drop_last();
        assert forall|i: int| 0 <= i < before.len() implies #[trigger] before[i] * step
            <= usize::MAX by {
            assert(before[i] == quotients[i]);
        }
        lemma_rungs_rise(before, step);
        assert(quotients[last] * step <= usize::MAX);
        vstd::arithmetic::div_mod::lemma_mod_multiples_basic(quotients[last] as int, step as int);
        if before.len() > 0 {
            assert(quotients[last - 1] <= quotients[last]);
            assert(quotients[last - 1] * step <= quotients[last] * step) by (nonlinear_arith)
                requires
                    quotients[last - 1] <= quotients[last],
            ;
            assert(before.last() == quotients[last - 1]);
        }
    }
}

/// The highest power to consider on a ladder of so many sizes: each degree
/// costs a size, and a fit needs more sizes than terms.
pub fn max_degree(sizes: usize) -> (degree: usize)
    ensures
        degree == if sizes < 2 {
            0
        } else if sizes - 2 < MAX_DEGREE {
            sizes - 2
        } else {
            MAX_DEGREE as int
        },
        sizes >= 5 ==> degree == 3,
        2 <= sizes <= 5 ==> degree + 2 == sizes,
{
    if sizes < 2 {
        0
    } else if sizes - 2 < MAX_DEGREE {
        sizes - 2
    } else {
        MAX_DEGREE
    }
}

/// Whether another opening round is due after `done` of them.
///
/// Two come unconditionally, because a standard error needs two points to
/// exist. After that the budget has a say.
pub fn opens_another_round(done: usize, over_budget: bool) -> (more: bool)
    ensures
        more == (done < 2 || (done < INITIAL_REPEATS && !over_budget)),
        !over_budget ==> (more <==> done < 6),
        over_budget ==> (more <==> done < 2),
{
    done < INITIAL_REPEATS && (done < 2 || !over_budget)
}

/// Whether refining ends here, and then whether it ended short of what was
/// asked for: an accepted shape and a precise constant, both.
pub open spec fn refining_ends(settled: bool, precise: bool, over_budget: bool) -> Option<bool> {
    if settled && precise {
        Some(false)
    } else if over_budget {
        Some(true)
    } else {
        None
    }
}

/// Whether refining ends here, and then whether it ended short of what was
/// asked for.
///
/// `settled` says whether the fitted shape is accepted, `precise` whether its
/// constant is known finely enough. Both are needed, because a wrong model
/// does not present as an imprecise one: a constant fitted to a cost that
/// grows is near enough the mean of every measurement, precise straight away
/// and quite wrong. An answer that has both never reports a limit it did not
/// need.
pub fn refined(settled: bool, precise: bool, over_budget: bool) -> (hit_limit: Option<bool>)
    ensures
        hit_limit == refining_ends(settled, precise, over_budget),
{
    if settled && precise {
        Some(false)
    } else if over_budget {
        Some(true)
    } else {
        None
    }
}

/// How well the fitted shape describes what was measured.
#[derive(Debug, Clone, Copy, PartialEq, Eq, Structural)]
pub enum Goodness {
    /// No shape was identified.
    Unidentified,
    /// A constant that stood up to the test. A constant accounts for none of
    /// the spread by construction, so no share of it can be reported.
    Settled,
    /// The share of the spread that the fit accounts for.
    Share,
}

/// What a sweep claims.
#[derive(Debug, Clone, Copy, PartialEq, Eq, Structural)]
pub struct Verdict {
    /// The power of the scaling law.
    pub power: usize,
    /// How well it describes what was measured.
    pub goodness: Goodness,
    /// Whether the sweep ended short of the accuracy asked for, or identified
    /// no law.
    pub hit_limit: bool,
}

/// What a sweep claims of a fit, given its power and whether it was rejected.
pub open spec fn judged(fit: Option<(usize, bool)>, hit_limit: bool) -> Verdict {
    match fit {
        None => Verdict { power: 0, goodness: Goodness::Unidentified, hit_limit: true },
        Some((power, true)) => Verdict {
            power,
            goodness: Goodness::Unidentified,
            hit_limit: true,
        },
        Some((power, false)) => Verdict {
            power,
            goodness: if power == 0 {
                Goodness::Settled
            } else {
                Goodness::Share
            },
            hit_limit,
        },
    }
}

/// What a sweep claims of a fit, given its power and whether it was rejected.
///
/// Rejection changes what is claimed, not what was measured: the power is the
/// one the cost behaves like either way.
pub fn judge(fit: Option<(usize, bool)>, hit_limit: bool) -> (verdict: Verdict)
    ensures
        verdict == judged(fit, hit_limit),
{
    match fit {
        None => Verdict { power: 0, goodness: Goodness::Unidentified, hit_limit: true },
        Some((power, rejected)) => {
            let goodness = if rejected {
                Goodness::Unidentified
            } else if power == 0 {
                Goodness::Settled
            } else {
                Goodness::Share
            };
            Verdict { power, goodness, hit_limit: hit_limit || rejected }
        },
    }
}

/// Refining ends without a limit exactly where the shape is accepted and the
/// constant is precise; it ends at a limit only where the budget is spent, and
/// never goes on after that.
pub proof fn law_refining(settled: bool, precise: bool, over_budget: bool)
    ensures
        refining_ends(settled, precise, over_budget) == Some(false) <==> settled && precise,
        refining_ends(settled, precise, over_budget) == Some(true) ==> over_budget,
        over_budget ==> refining_ends(settled, precise, over_budget) is Some,
{
}

/// A sweep is reported without the mark of a limit exactly where a fit was
/// found and accepted and its constant is precise.
pub proof fn law_an_unmarked_sweep_is_settled(
    fit: Option<(usize, bool)>,
    precise: bool,
    over_budget: bool,
)
    ensures
        ({
            let settled = fit matches Some((_, rejected)) && !rejected;
            refining_ends(settled, precise, over_budget) matches Some(hit_limit) ==> (!judged(
                fit,
                hit_limit,
            ).hit_limit <==> settled && precise)
        }),
{
}

/// What a coefficient is measured per.
pub open spec fn suffix(power: nat) -> Seq<char> {
    if power == 0 {
        "/iter"@
    } else if power == 1 {
        "/N"@
    } else if power == 2 {
        "/N²"@
    } else if power == 3 {
        "/N³"@
    } else if power == 4 {
        "/N⁴"@
    } else if power == 5 {
        "/N⁵"@
    } else if power == 6 {
        "/N⁶"@
    } else if power == 7 {
        "/N⁷"@
    } else if power == 8 {
        "/N⁸"@
    } else if power == 9 {
        "/N⁹"@
    } else {
        "/N^"@ + text::decimal(power)
    }
}

/// The suffix naming what a coefficient is measured per, without the number
/// in front of it.
pub fn scale_suffix(power: usize) -> (out: String)
    ensures
        out@ == suffix(power as nat),
{
    if power == 0 {
        "/iter".to_owned()
    } else if power == 1 {
        "/N".to_owned()
    } else if power == 2 {
        "/N²".to_owned()
    } else if power == 3 {
        "/N³".to_owned()
    } else if power == 4 {
        "/N⁴".to_owned()
    } else if power == 5 {
        "/N⁵".to_owned()
    } else if power == 6 {
        "/N⁶".to_owned()
    } else if power == 7 {
        "/N⁷".to_owned()
    } else if power == 8 {
        "/N⁸".to_owned()
    } else if power == 9 {
        "/N⁹".to_owned()
    } else {
        let mut out = "/N^".to_owned();
        text::append_number(&mut out, power as u64);
        out
    }
}

/// Each step of a ladder's rungs: a quotient whose size differs from the
/// one before it adds that size, and the last rung is always the last
/// quotient's.
proof fn lemma_rungs(quotients: Seq<usize>, step: nat)
    ensures
        ({
            let r = rungs(quotients, step);
            let at = |k: int| capped(quotients[k] as nat * step) as usize;
            let apart = forall|k: int, j: int|
                0 <= k < j < quotients.len() && j == k + 1 ==> #[trigger] at(k) != #[trigger] at(j);
            &&& r.len() <= quotients.len()
            &&& quotients.len() > 0 ==> r.len() > 0 && r.last() == at(quotients.len() - 1)
            &&& apart ==> r == Seq::new(quotients.len(), at)
            &&& !apart ==> r.len() < quotients.len()
        }),
    decreases quotients.len(),
{
    let at = |k: int| capped(quotients[k] as nat * step) as usize;
    let n = quotients.len() as int;
    if n == 0 {
        assert(rungs(quotients, step) =~= Seq::new(quotients.len(), at));
    } else {
        let front = quotients.drop_last();
        lemma_rungs(front, step);
        let was = |k: int| capped(front[k] as nat * step) as usize;
        assert forall|k: int| 0 <= k < n - 1 implies was(k) == #[trigger] at(k) by {}
        if forall|k: int, j: int|
            0 <= k < j < n && j == k + 1 ==> #[trigger] at(k) != #[trigger] at(j) {
            assert forall|k: int, j: int| 0 <= k < j < n - 1 && j == k + 1 implies #[trigger] was(k)
                != #[trigger] was(j) by {
                assert(at(k) != at(j));
            }
            if n > 1 {
                assert(at(n - 2) != at(n - 1));
            }
            assert(rungs(quotients, step) =~= Seq::new(quotients.len(), at));
        } else {
            let (k, j) = choose|k: int, j: int|
                0 <= k < j < n && j == k + 1 && #[trigger] at(k) == #[trigger] at(j);
            if k < n - 2 {
                assert(was(k) == was(j));
            } else {
                assert(rungs(front, step).last() == at(n - 2));
            }
        }
    }
}

/// The sizes of a ladder: each quotient times the caller's unit where no two
/// neighbours come to the same size, and consecutive units up from the bottom
/// where two do. A size that is too large to hold is the largest there is.
pub proof fn law_sizes_are_the_rungs_or_consecutive(lo: nat, nmin: nat, quotients: Seq<usize>)
    requires
        quotients.len() == NUM_SIZES,
    ensures
        ({
            let unit = vstd::math::max(nmin as int, 1);
            let held = |n: int| vstd::math::min(n, usize::MAX as int);
            let sizes = ladder(lo, unit_of(nmin), quotients);
            let apart = forall|j: int, k: int|
                #![trigger quotients[j], quotients[k]]
                0 <= j < k < NUM_SIZES && k == j + 1 ==> held(quotients[j] * unit) != held(
                    quotients[k] * unit,
                );
            &&& sizes.len() == NUM_SIZES
            &&& apart ==> forall|i: int|
                0 <= i < NUM_SIZES ==> (#[trigger] sizes[i]) as int == held(quotients[i] * unit)
            &&& !apart ==> forall|i: int|
                0 <= i < NUM_SIZES ==> (#[trigger] sizes[i]) as int == held(lo + i * unit)
        }),
{
    let unit = vstd::math::max(nmin as int, 1);
    let step = unit_of(nmin);
    assert(unit == step);
    let held = |n: int| vstd::math::min(n, usize::MAX as int);
    let at = |k: int| capped(quotients[k] as nat * step) as usize;
    let sizes = ladder(lo, step, quotients);
    lemma_rungs(quotients, step);
    assert forall|k: int| 0 <= k < NUM_SIZES implies (#[trigger] at(k)) as int == held(
        quotients[k] * unit,
    ) by {
        assert(0 <= quotients[k] * step) by (nonlinear_arith)
            requires
                0 <= quotients[k],
        ;
    }
    if forall|j: int, k: int|
        #![trigger quotients[j], quotients[k]]
        0 <= j < k < NUM_SIZES && k == j + 1 ==> held(quotients[j] * unit) != held(
            quotients[k] * unit,
        ) {
        assert forall|j: int, k: int| 0 <= j < k < NUM_SIZES && k == j + 1 implies #[trigger] at(j)
            != #[trigger] at(k) by {
            assert(held(quotients[j] * unit) != held(quotients[k] * unit));
        }
        assert forall|i: int| 0 <= i < NUM_SIZES implies (#[trigger] sizes[i]) as int == held(
            quotients[i] * unit,
        ) by {
            assert(sizes[i] == at(i));
        }
    } else {
        let (j, k) = choose|j: int, k: int|
            #![trigger quotients[j], quotients[k]]
            0 <= j < k < NUM_SIZES && k == j + 1 && held(quotients[j] * unit) == held(
                quotients[k] * unit,
            );
        assert(at(j) == at(k));
        assert(sizes == densest(lo, step));
        assert forall|i: int| 0 <= i < NUM_SIZES implies (#[trigger] sizes[i]) as int == held(
            lo + i * unit,
        ) by {
            assert(0 <= i * step) by (nonlinear_arith)
                requires
                    0 <= i,
            ;
        }
    }
}

/// A ladder whose neighbouring quotients differ, and whose rungs can all be
/// held, is made of exactly those rungs: each size is its quotient times the
/// caller's unit, up to the last.
pub proof fn law_distinct_rungs_are_the_sizes(lo: nat, nmin: nat, quotients: Seq<usize>)
    requires
        quotients.len() == NUM_SIZES,
        forall|k: int| 0 <= k < NUM_SIZES - 1 ==> #[trigger] quotients[k] != quotients[k + 1],
        forall|k: int|
            0 <= k < NUM_SIZES ==> (#[trigger] quotients[k]) * vstd::math::max(nmin as int, 1)
                <= usize::MAX,
    ensures
        ladder(lo, unit_of(nmin), quotients).len() == NUM_SIZES,
        forall|i: int|
            0 <= i < NUM_SIZES ==> (#[trigger] ladder(lo, unit_of(nmin), quotients)[i]) as int
                == quotients[i] * vstd::math::max(nmin as int, 1),
{
    let unit = vstd::math::max(nmin as int, 1);
    let held = |n: int| vstd::math::min(n, usize::MAX as int);
    law_sizes_are_the_rungs_or_consecutive(lo, nmin, quotients);
    assert forall|j: int, k: int|
        #![trigger quotients[j], quotients[k]]
        0 <= j < k < NUM_SIZES && k == j + 1 implies held(quotients[j] * unit) != held(
        quotients[k] * unit,
    ) by {
        let (a, b) = (quotients[j] as int, quotients[k] as int);
        assert(quotients[j] != quotients[j + 1]);
        assert(a * unit <= usize::MAX && b * unit <= usize::MAX);
        assert(a * unit != b * unit) by (nonlinear_arith)
            requires
                a != b,
                unit > 0,
        ;
    }
}

/// Where two neighbouring rungs coincide, the sizes are consecutive units up
/// from the bottom instead.
pub proof fn law_coinciding_rungs_give_consecutive_sizes(
    lo: nat,
    nmin: nat,
    quotients: Seq<usize>,
    k: int,
)
    requires
        quotients.len() == NUM_SIZES,
        0 <= k < NUM_SIZES - 1,
        quotients[k] == quotients[k + 1],
        lo + NUM_SIZES * vstd::math::max(nmin as int, 1) <= usize::MAX,
    ensures
        ladder(lo, unit_of(nmin), quotients).len() == NUM_SIZES,
        forall|i: int|
            0 <= i < NUM_SIZES ==> (#[trigger] ladder(lo, unit_of(nmin), quotients)[i]) as int == lo
                + i * vstd::math::max(nmin as int, 1),
{
    let unit = vstd::math::max(nmin as int, 1);
    law_sizes_are_the_rungs_or_consecutive(lo, nmin, quotients);
    let j = k + 1;
    assert(quotients[k] * unit == quotients[j] * unit);
    assert forall|i: int| 0 <= i < NUM_SIZES implies #[trigger] (lo + i * unit) <= usize::MAX by {
        assert(i * unit <= NUM_SIZES * unit) by (nonlinear_arith)
            requires
                i <= NUM_SIZES,
                unit > 0,
        ;
    }
}

/// A climb that may go on takes the largest multiple of the caller's unit
/// within what is proposed, wherever that is above the last size; and it may go
/// on until a size was long enough to time, time ran out, or eight steps were
/// taken.
pub proof fn law_a_climb_takes_what_is_proposed(c: ClimbView, proposed: usize, n: nat)
    requires
        c.well_formed(),
        n % c.step == 0,
        n <= proposed < n + c.step,
    ensures
        n > c.last && c.taken < 8 ==> c.next(false, false, Some(proposed)) == Some(n),
        n > c.last ==> c.upwards(Some(proposed)) == Some(n),
        n <= c.last || c.taken >= 8 ==> c.next(false, false, Some(proposed)) is None,
        n <= c.last ==> c.upwards(Some(proposed)) is None,
        c.next(false, false, None) is None,
        c.upwards(None) is None,
{
    lemma_in_units(proposed as nat, c.step);
    let (step, m) = (c.step as int, in_units(proposed as nat, c.step) as int);
    if proposed >= c.step {
        let (a, b) = (n as int / step, m / step);
        vstd::arithmetic::div_mod::lemma_fundamental_div_mod(n as int, step);
        vstd::arithmetic::div_mod::lemma_fundamental_div_mod(m, step);
        assert(a == b) by (nonlinear_arith)
            requires
                n == step * a,
                m == step * b,
                n <= proposed < n + step,
                m <= proposed < m + step,
                step > 0,
        ;
    } else {
        assert(n == 0) by (nonlinear_arith)
            requires
                n % c.step == 0,
                n < c.step,
        ;
    }
}

/// A sweep claims the power of its fit whether or not the fit was accepted. A
/// fit that was rejected, or none at all, identifies nothing and is marked; an
/// accepted one says how well it describes the cost, which a constant cannot.
pub proof fn law_judging(power: usize, hit_limit: bool)
    ensures
        forall|rejected: bool| (#[trigger] judged(Some((power, rejected)), hit_limit)).power == power,
        judged(Some((power, true)), hit_limit).hit_limit,
        judged(Some((power, false)), hit_limit).hit_limit == hit_limit,
        judged(None, hit_limit).hit_limit,
        judged(None, hit_limit).goodness == Goodness::Unidentified,
        judged(Some((power, true)), hit_limit).goodness == Goodness::Unidentified,
        judged(Some((power, false)), hit_limit).goodness == Goodness::Settled <==> power == 0,
        judged(Some((power, false)), hit_limit).goodness == Goodness::Share <==> power > 0,
{
}

/// A power of one digit needs no `^`.
proof fn lemma_no_caret(p: nat)
    requires
        p < 10,
    ensures
        suffix(p).len() > 2 ==> suffix(p)[2] != '^',
{
    reveal_strlit("/iter");
    reveal_strlit("/N");
    reveal_strlit("/N²");
    reveal_strlit("/N³");
    reveal_strlit("/N⁴");
    reveal_strlit("/N⁵");
    reveal_strlit("/N⁶");
    reveal_strlit("/N⁷");
    reveal_strlit("/N⁸");
    reveal_strlit("/N⁹");
}

/// Powers of one digit are written apart.
proof fn lemma_short_suffixes(p: nat, q: nat)
    requires
        p < 10,
        q < 10,
        p != q,
    ensures
        suffix(p) != suffix(q),
{
    reveal_strlit("/iter");
    reveal_strlit("/N");
    reveal_strlit("/N²");
    reveal_strlit("/N³");
    reveal_strlit("/N⁴");
    reveal_strlit("/N⁵");
    reveal_strlit("/N⁶");
    reveal_strlit("/N⁷");
    reveal_strlit("/N⁸");
    reveal_strlit("/N⁹");
    assert("/iter"@.len() == 5 && "/N"@.len() == 2);
    assert(p > 1 ==> suffix(p).len() == 3);
    assert(q > 1 ==> suffix(q).len() == 3);
    if p > 1 && q > 1 {
        assert(suffix(p)[2] != suffix(q)[2]);
    }
}

/// No two powers are written alike: what stands after `/N` is the power
/// itself, as a superscript where that takes one character, and a constant is
/// per iteration.
pub proof fn law_powers_are_written_apart(p: nat, q: nat)
    requires
        p != q,
    ensures
        suffix(p) != suffix(q),
        p >= 10 ==> suffix(p) == seq!['/', 'N', '^'] + text::decimal(p),
        1 <= p < 10 ==> suffix(p).take(2) == seq!['/', 'N'] && suffix(p).len() <= 3,
        2 <= p < 10 ==> suffix(p).len() == 3 && suffix(p)[2] == (seq!['²', '³', '⁴', '⁵', '⁶', '⁷',
            '⁸', '⁹'])[p - 2],
{
    reveal_strlit("/iter");
    reveal_strlit("/N");
    reveal_strlit("/N²");
    reveal_strlit("/N³");
    reveal_strlit("/N⁴");
    reveal_strlit("/N⁵");
    reveal_strlit("/N⁶");
    reveal_strlit("/N⁷");
    reveal_strlit("/N⁸");
    reveal_strlit("/N⁹");
    reveal_strlit("/N^");
    assert("/N^"@ =~= seq!['/', 'N', '^']);
    if 1 <= p < 10 {
        assert(suffix(p).take(2) =~= seq!['/', 'N']);
    }
    text::lemma_decimal(p);
    text::lemma_decimal(q);
    if p >= 10 {
        assert(suffix(p).skip(3) =~= text::decimal(p));
        assert(suffix(p)[2] == '^');
    }
    if q >= 10 {
        assert(suffix(q).skip(3) =~= text::decimal(q));
        assert(suffix(q)[2] == '^');
    }
    if p < 10 && q < 10 {
        lemma_short_suffixes(p, q);
    } else if p < 10 {
        lemma_no_caret(p);
    } else if q < 10 {
        lemma_no_caret(q);
    }
}

} // verus!
