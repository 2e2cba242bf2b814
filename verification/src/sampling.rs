//! How long to sample, in what order, and how big a batch.
//!
//! A sampling loop alternates measuring with deciding. The decisions are
//! here: they take what was measured and say what to do next.

use crate::reorder;
use crate::scheduler;
use crate::text;
use vstd::prelude::*;

verus! {

/// Never stop voluntarily on fewer rounds than this.
///
/// Stopping the instant a noisy estimate of the error happens to dip below
/// the target would systematically favour the runs that got lucky. It is a
/// floor on concluding, not on reporting: a run that is out of budget reports
/// what it has.
pub const MIN_SAMPLES: usize = 6;

/// A backstop on the number of rounds.
pub const MAX_SAMPLES: usize = 1_000_000;

/// How long each alternative is measured at least, in nanoseconds.
pub const MIN_SAMPLE_TIME_NS: u64 = 3_000_000;

/// How long one sample should take, in nanoseconds.
pub const SAMPLE_TIME_NS: u64 = 100_000;

/// A batch is never larger than this.
pub const MAX_CALIBRATION_UNIT: usize = 2_000_000;

/// The inputs of a batch never take more than this, as far as their size
/// shows.
pub const MAX_CALIBRATION_BYTES: usize = 67_108_864;

/// The search for a batch size.
#[derive(Debug, Clone, Copy, PartialEq, Eq)]
pub struct Calibration {
    unit: usize,
    cap: usize,
    probed: u64,
}

/// The values of a [`Calibration`].
#[verifier::ext_equal]
pub struct CalibrationView {
    /// The batch size to probe next.
    pub unit: nat,
    /// The largest batch size worth probing.
    pub cap: nat,
    /// How often the benchmark has run so far.
    pub probed: nat,
}

impl View for Calibration {
    type V = CalibrationView;

    closed spec fn view(&self) -> CalibrationView {
        CalibrationView {
            unit: self.unit as nat,
            cap: self.cap as nat,
            probed: self.probed as nat,
        }
    }
}

impl CalibrationView {
    /// Whether the search is within its bounds.
    pub open spec fn well_formed(self) -> bool {
        &&& 1 <= self.unit
        &&& self.unit <= self.cap || self.unit == 1
        &&& self.cap <= MAX_CALIBRATION_UNIT
        &&& self.probed <= self.unit * MAX_CALIBRATION_UNIT
    }
}

/// The largest batch of inputs of `input_bytes` each.
pub open spec fn unit_cap(input_bytes: nat) -> nat {
    let by_size = MAX_CALIBRATION_BYTES as nat / (if input_bytes == 0 {
        1
    } else {
        input_bytes
    });
    if by_size < MAX_CALIBRATION_UNIT {
        by_size
    } else {
        MAX_CALIBRATION_UNIT as nat
    }
}

impl Calibration {
    /// Start from a batch of one input of `input_bytes`.
    ///
    /// Two ceilings need no timing at all: one on the batch size, for a
    /// benchmark the optimiser deletes outright, and one on the bytes.
    pub fn new(input_bytes: usize) -> (c: Calibration)
        ensures
            c@.well_formed(),
            c@ == (CalibrationView { unit: 1, cap: unit_cap(input_bytes as nat), probed: 0 }),
    {
        let divisor: usize = if input_bytes == 0 {
            1
        } else {
            input_bytes
        };
        let by_size: usize = MAX_CALIBRATION_BYTES / divisor;
        let cap: usize = if by_size < MAX_CALIBRATION_UNIT {
            by_size
        } else {
            MAX_CALIBRATION_UNIT
        };
        Calibration { unit: 1, cap, probed: 0 }
    }

    /// The batch size to probe next.
    pub fn unit(&self) -> (unit: usize)
        ensures
            unit == self@.unit,
    {
        self.unit
    }

    /// How often the benchmark has run so far.
    pub fn probed(&self) -> (probed: u64)
        ensures
            probed == self@.probed,
    {
        self.probed
    }

    /// Note that one batch was probed, and say whether its size is the one to
    /// use: as soon as any ceiling is reached.
    ///
    /// `timed_ns` is what the batch took, `total_ns` what it took with its
    /// inputs made, and `ceiling_ns` what a probe may take in all.
    pub fn accept(
        &mut self,
        timed_ns: u64,
        total_ns: u64,
        ceiling_ns: u64,
        exhausted: bool,
    ) -> (accepted: bool)
        requires
            old(self)@.well_formed(),
        ensures
            final(self)@ == (CalibrationView {
                probed: old(self)@.probed + old(self)@.unit,
                ..old(self)@
            }),
            accepted == (timed_ns >= SAMPLE_TIME_NS || total_ns >= ceiling_ns || old(self)@.unit
                >= old(self)@.cap || exhausted),
            !accepted ==> final(self)@.unit < final(self)@.cap,
            timed_ns >= 100_000 ==> accepted,
            timed_ns < 100_000 && total_ns < ceiling_ns && old(self)@.unit < old(self)@.cap
                && !exhausted ==> !accepted,
            final(self)@.probed <= (final(self)@.unit + 1) * MAX_CALIBRATION_UNIT,
    {
        assert(self.unit * MAX_CALIBRATION_UNIT + self.unit <= u64::MAX) by {
            assert(self.unit * 2_000_000 <= 2_000_000 * 2_000_000) by (nonlinear_arith)
                requires
                    self.unit <= 2_000_000,
            ;
        }
        self.probed = self.probed + self.unit as u64;
        assert((self.unit + 1) * MAX_CALIBRATION_UNIT == self.unit * MAX_CALIBRATION_UNIT
            + MAX_CALIBRATION_UNIT) by (nonlinear_arith);
        timed_ns >= SAMPLE_TIME_NS || total_ns >= ceiling_ns || self.unit >= self.cap || exhausted
    }

    /// Go on with a larger batch: `proposed`, but at least one more than the
    /// last and never past the cap.
    pub fn grow(&mut self, proposed: usize)
        requires
            old(self)@.unit < old(self)@.cap,
            old(self)@.cap <= MAX_CALIBRATION_UNIT,
            old(self)@.probed <= (old(self)@.unit + 1) * MAX_CALIBRATION_UNIT,
        ensures
            final(self)@.well_formed(),
            final(self)@ == (CalibrationView {
                unit: if proposed <= old(self)@.unit {
                    old(self)@.unit + 1
                } else if proposed <= old(self)@.cap {
                    proposed as nat
                } else {
                    old(self)@.cap
                },
                ..old(self)@
            }),
            old(self)@.unit < final(self)@.unit <= final(self)@.cap,
    {
        let least: usize = self.unit + 1;
        let wanted: usize = if proposed > least {
            proposed
        } else {
            least
        };
        let ghost was = self.unit;
        self.unit = if wanted < self.cap {
            wanted
        } else {
            self.cap
        };
        assert((was + 1) * MAX_CALIBRATION_UNIT <= self.unit * MAX_CALIBRATION_UNIT)
            by (nonlinear_arith)
            requires
                was + 1 <= self.unit,
        ;
    }
}

/// What a probe may take in all, in nanoseconds: a hundredth of the budget,
/// but at least five milliseconds.
pub fn probe_ceiling_ns(budget_ns: u64) -> (ceiling: u64)
    ensures
        ceiling == if budget_ns / 100 > 5_000_000 {
            budget_ns / 100
        } else {
            5_000_000
        },
{
    let share: u64 = budget_ns / 100;
    if share > 5_000_000 {
        share
    } else {
        5_000_000
    }
}

/// A run of rounds, each a batch of every alternative.
#[derive(Debug, Clone, Copy, PartialEq, Eq)]
pub struct Sampling {
    alternatives: usize,
    unit: usize,
    probed: u64,
    floor_ns: u128,
    rounds: usize,
    measured_ns: u128,
    flip: u64,
}

/// The values of a [`Sampling`].
#[verifier::ext_equal]
pub struct SamplingView {
    pub alternatives: nat,
    pub unit: nat,
    pub probed: nat,
    pub floor_ns: nat,
    pub rounds: nat,
    pub measured_ns: nat,
    pub flip: u64,
}

impl View for Sampling {
    type V = SamplingView;

    closed spec fn view(&self) -> SamplingView {
        SamplingView {
            alternatives: self.alternatives as nat,
            unit: self.unit as nat,
            probed: self.probed as nat,
            floor_ns: self.floor_ns as nat,
            rounds: self.rounds as nat,
            measured_ns: self.measured_ns as nat,
            flip: self.flip,
        }
    }
}

/// The order of a round: every alternative once, from a rotated start.
pub open spec fn rotation(k: nat, offset: int) -> Seq<int> {
    Seq::new(k, |step: int| (offset + step) % (k as int))
}

/// The sum of a list of times.
pub open spec fn total(times: Seq<u64>) -> nat
    decreases times.len(),
{
    if times.len() == 0 {
        0
    } else {
        total(times.drop_last()) + times.last() as nat
    }
}

/// The start of a comparison's random stream.
pub open spec fn first_flip(seed: u64) -> u64 {
    0x9E37_79B9_7F4A_7C15u64 ^ ((seed * 0x2545_F491_4F6C_DD1D) % 0x1_0000_0000_0000_0000) as u64
}

impl SamplingView {
    /// Whether the numbers are within their bounds.
    pub open spec fn well_formed(self) -> bool {
        &&& self.alternatives > 0
        &&& self.rounds <= MAX_SAMPLES
        &&& self.probed + MAX_SAMPLES * self.unit <= u64::MAX
    }

    /// Whether the run may conclude that it is done: a lone benchmark once its
    /// own time is measured finely enough, several once every difference is.
    pub open spec fn precise(self, own_precise: bool, all_precise: bool) -> bool {
        &&& self.rounds >= MIN_SAMPLES
        &&& self.measured_ns >= self.floor_ns
        &&& self.alternatives == 1 ==> own_precise
        &&& all_precise
    }

    /// Whether the run stops here.
    pub open spec fn stops(self, own_precise: bool, all_precise: bool, exhausted: bool) -> bool {
        self.precise(own_precise, all_precise) || self.rounds >= MAX_SAMPLES || exhausted
    }
}

/// What a finished run says of itself.
#[derive(Debug, Clone, Copy, PartialEq, Eq, Structural)]
pub struct Finished {
    /// How often the benchmark ran, probes among them.
    pub iterations: u64,
    /// How many rounds were taken.
    pub samples: usize,
    /// Whether the run ended before it was as precise as asked.
    pub hit_limit: bool,
    /// Whether there are too few rounds for the error itself to be believed.
    pub untrustworthy: bool,
}

impl Sampling {
    /// Sample `alternatives` in batches of `unit`, after `probed` runs of
    /// calibration.
    ///
    /// Each alternative has to be measured for a minimum time, and a round
    /// buys evidence about all of them, so the floor on a round's total is as
    /// many times as large. `seed` distinguishes the random stream of one
    /// comparison from another's.
    pub fn new(alternatives: usize, unit: usize, probed: u64, seed: u64) -> (s: Sampling)
        requires
            alternatives > 0,
            probed + MAX_SAMPLES * unit <= u64::MAX,
        ensures
            s@ == (SamplingView {
                alternatives: alternatives as nat,
                unit: unit as nat,
                probed: probed as nat,
                floor_ns: (alternatives * MIN_SAMPLE_TIME_NS) as nat,
                rounds: 0,
                measured_ns: 0,
                flip: first_flip(seed),
            }),
            s@.floor_ns == alternatives * 3_000_000,
            s@.well_formed(),
    {
        let floor_ns: u128 = alternatives as u128 * 3_000_000u128;
        let scattered: u64 = seed.wrapping_mul(0x2545_F491_4F6C_DD1Du64);
        let flip: u64 = 0x9E37_79B9_7F4A_7C15u64 ^ scattered;
        Sampling { alternatives, unit, probed, floor_ns, rounds: 0, measured_ns: 0, flip }
    }

    /// Sample one function in batches of `unit`, with no floor on how long it
    /// is measured.
    pub fn flat(unit: usize, probed: u64) -> (s: Sampling)
        requires
            probed + MAX_SAMPLES * unit <= u64::MAX,
        ensures
            s@ == (SamplingView {
                alternatives: 1,
                unit: unit as nat,
                probed: probed as nat,
                floor_ns: 0,
                rounds: 0,
                measured_ns: 0,
                flip: first_flip(0),
            }),
            s@.well_formed(),
    {
        let mut s = Sampling::new(1, unit, probed, 0);
        s.floor_ns = 0;
        s
    }

    /// The order of the next round: every alternative once, starting from a
    /// position drawn at random, so that none keeps a fixed place.
    pub fn next_order(&mut self) -> (order: Vec<usize>)
        requires
            old(self)@.well_formed(),
        ensures
            final(self)@ == (SamplingView {
                flip: scheduler::xorshift(old(self)@.flip),
                ..old(self)@
            }),
            crate::order::ints(order@) == rotation(
                old(self)@.alternatives,
                (scheduler::xorshift(old(self)@.flip) % old(self)@.alternatives as u64) as int,
            ),
    {
        self.flip = scheduler::step(self.flip);
        let k: usize = self.alternatives;
        let offset: usize = (self.flip % (k as u64)) as usize;
        let mut order: Vec<usize> = Vec::new();
        let ghost whole = rotation(k as nat, offset as int);
        proof {
            vstd::arithmetic::div_mod::lemma_small_mod(offset as nat, k as nat);
        }
        let mut step: usize = 0;
        let mut at: usize = offset;
        while step < k
            invariant
                0 < k,
                step <= k,
                at < k,
                offset < k,
                at as int == (offset + step) % (k as int),
                whole == rotation(k as nat, offset as int),
                crate::order::ints(order@) == whole.take(step as int),
            decreases k - step,
        {
            let ghost had = crate::order::ints(order@);
            order.push(at);
            proof {
                assert(crate::order::ints(order@) =~= had.push(whole[step as int]));
                assert(whole.take(step + 1) =~= whole.take(step as int).push(whole[step as int]));
                lemma_next_place(offset as int, step as int, k as int);
            }
            at = if at == k - 1 {
                0
            } else {
                at + 1
            };
            step += 1;
        }
        assert(whole.take(step as int) =~= whole);
        order
    }

    /// Note one round, given what each alternative's batch took.
    pub fn record(&mut self, batch_ns: &Vec<u64>)
        requires
            old(self)@.well_formed(),
            old(self)@.rounds < MAX_SAMPLES,
        ensures
            final(self)@ == (SamplingView {
                rounds: old(self)@.rounds + 1,
                measured_ns: if old(self)@.measured_ns + total(batch_ns@) <= u128::MAX {
                    old(self)@.measured_ns + total(batch_ns@)
                } else {
                    u128::MAX as nat
                },
                ..old(self)@
            }),
            final(self)@.well_formed(),
    {
        let ghost start = self.measured_ns as nat;
        let mut i: usize = 0;
        assert(batch_ns@.take(0) =~= Seq::<u64>::empty());
        while i < batch_ns.len()
            invariant
                i <= batch_ns.len(),
                self.alternatives == old(self)@.alternatives,
                self.unit == old(self)@.unit,
                self.probed == old(self)@.probed,
                self.floor_ns == old(self)@.floor_ns,
                self.rounds == old(self)@.rounds,
                self.flip == old(self)@.flip,
                self.measured_ns as nat == if start + total(batch_ns@.take(i as int))
                    <= u128::MAX {
                    start + total(batch_ns@.take(i as int))
                } else {
                    u128::MAX as nat
                },
            decreases batch_ns.len() - i,
        {
            assert(batch_ns@.take(i + 1).drop_last() =~= batch_ns@.take(i as int));
            let t: u128 = batch_ns[i] as u128;
            self.measured_ns = if self.measured_ns <= u128::MAX - t {
                self.measured_ns + t
            } else {
                u128::MAX
            };
            i += 1;
        }
        assert(batch_ns@.take(i as int) =~= batch_ns@);
        self.rounds = self.rounds + 1;
    }

    /// Whether to stop, and if so whether the run is as precise as asked.
    ///
    /// `own_precise` says whether the baseline's own time is measured finely
    /// enough, which is asked of a lone benchmark. `all_precise` says whether
    /// every difference is, and holds where there is none. `exhausted` says
    /// whether the budget is spent. It is the size of the error that is asked
    /// about, never the size of the difference: stopping as soon as a
    /// difference became significant would put back the false positives that
    /// the correction for many comparisons removes.
    pub fn verdict(&self, own_precise: bool, all_precise: bool, exhausted: bool) -> (out: Option<
        bool,
    >)
        ensures
            out == if self@.stops(own_precise, all_precise, exhausted) {
                Some(self@.precise(own_precise, all_precise))
            } else {
                None
            },
            self@.alternatives >= 2 && self@.rounds >= MIN_SAMPLES && self@.measured_ns
                >= self@.floor_ns && all_precise ==> out == Some(true),
            out == Some(true) ==> self@.rounds >= MIN_SAMPLES && self@.measured_ns
                >= self@.floor_ns && all_precise,
    {
        let precise = self.rounds >= MIN_SAMPLES && self.measured_ns >= self.floor_ns && (
        self.alternatives != 1 || own_precise) && all_precise;
        if precise || self.rounds >= MAX_SAMPLES || exhausted {
            Some(precise)
        } else {
            None
        }
    }

    /// What the run says of itself.
    pub fn finish(&self, precise: bool) -> (out: Finished)
        requires
            self@.well_formed(),
        ensures
            out.iterations == self@.probed + self@.rounds * self@.unit,
            out.samples == self@.rounds,
            out.hit_limit == !precise,
            out.untrustworthy == (self@.rounds < MIN_SAMPLES),
    {
        assert(self.rounds * self.unit <= MAX_SAMPLES * self.unit) by (nonlinear_arith)
            requires
                self.rounds <= MAX_SAMPLES,
        ;
        Finished {
            iterations: self.probed + self.rounds as u64 * self.unit as u64,
            samples: self.rounds,
            hit_limit: !precise,
            untrustworthy: self.rounds < MIN_SAMPLES,
        }
    }
}

/// What is said of a benchmark whose first probe already spent the budget:
/// one sample, and nothing to believe of its error.
pub fn only_probed(probed: u64) -> (out: Finished)
    ensures
        out == (Finished { iterations: probed, samples: 1, hit_limit: true, untrustworthy: true }),
{
    Finished { iterations: probed, samples: 1, hit_limit: true, untrustworthy: true }
}

/// The mark a measurement carries: one for an answer less precise than asked, one
/// for an error not worth reading.
pub open spec fn mark(hit_limit: bool, untrustworthy: bool) -> Seq<char> {
    match (hit_limit, untrustworthy) {
        (true, true) => " (limit, untrusted)"@,
        (true, false) => " (limit)"@,
        (false, true) => " (untrusted)"@,
        (false, false) => ""@,
    }
}

/// The mark a measurement carries.
pub fn limit_mark(hit_limit: bool, untrustworthy: bool) -> (out: &'static str)
    ensures
        out@ == mark(hit_limit, untrustworthy),
{
    if hit_limit {
        if untrustworthy {
            " (limit, untrusted)"
        } else {
            " (limit)"
        }
    } else if untrustworthy {
        " (untrusted)"
    } else {
        ""
    }
}

/// The place after a place in a rotation.
proof fn lemma_next_place(offset: int, step: int, k: int)
    requires
        k > 0,
        0 <= offset,
        0 <= step,
    ensures
        (offset + step + 1) % k == if (offset + step) % k == k - 1 {
            0
        } else {
            (offset + step) % k + 1
        },
{
    let x = offset + step;
    vstd::arithmetic::div_mod::lemma_fundamental_div_mod(x, k);
    let (q, r) = (x / k, x % k);
    if r == k - 1 {
        assert(x + 1 == (q + 1) * k) by (nonlinear_arith)
            requires
                x == k * q + r,
                r == k - 1,
        ;
        vstd::arithmetic::div_mod::lemma_fundamental_div_mod_converse(x + 1, k, q + 1, 0);
    } else {
        assert(x + 1 == q * k + (r + 1)) by (nonlinear_arith)
            requires
                x == k * q + r,
        ;
        vstd::arithmetic::div_mod::lemma_fundamental_div_mod_converse(x + 1, k, q, r + 1);
    }
}

/// Every round measures every alternative exactly once, whatever position it
/// starts from.
pub proof fn law_a_rotation_visits_each_once(k: nat, offset: int)
    requires
        0 <= offset < k,
    ensures
        reorder::is_permutation(rotation(k, offset), k as int),
{
    let r = rotation(k, offset);
    let n = k as int;
    assert forall|j: int| 0 <= j < n implies #[trigger] r[j] == if offset + j < n {
        offset + j
    } else {
        offset + j - n
    } by {
        if offset + j < n {
            vstd::arithmetic::div_mod::lemma_small_mod((offset + j) as nat, k);
        } else {
            vstd::arithmetic::div_mod::lemma_fundamental_div_mod_converse(
                offset + j,
                n,
                1,
                offset + j - n,
            );
        }
    }
    assert forall|i: int| 0 <= i < n implies #[trigger] r.contains(i) by {
        let j = if i >= offset {
            i - offset
        } else {
            i - offset + n
        };
        assert(r[j] == i);
    }
}

/// A run never concludes on too few rounds, nor a lone benchmark before its own
/// error is small enough; it always ends by the backstop, and is marked exactly
/// when it ended for any other reason than its precision.
pub proof fn law_stopping(
    s: SamplingView,
    own_precise: bool,
    all_precise: bool,
    exhausted: bool,
)
    ensures
        s.precise(own_precise, all_precise) ==> s.rounds >= MIN_SAMPLES && all_precise,
        s.precise(own_precise, all_precise) && s.alternatives == 1 ==> own_precise,
        s.rounds >= MAX_SAMPLES ==> s.stops(own_precise, all_precise, exhausted),
        s.stops(own_precise, all_precise, exhausted) && !s.precise(own_precise, all_precise)
            ==> exhausted || s.rounds >= MAX_SAMPLES,
        !exhausted && s.rounds < MIN_SAMPLES ==> !s.stops(own_precise, all_precise, exhausted),
{
}

/// What a run is owed. Once six rounds were taken and the floor on the time was
/// reached, several alternatives are done exactly when every difference is
/// precise, whatever the baseline's own error is; a lone benchmark is done
/// exactly when its own time is precise too. Neither is before that.
pub proof fn law_enough_evidence_concludes(s: SamplingView, own_precise: bool, all_precise: bool)
    ensures
        s.alternatives >= 2 && s.rounds >= 6 && s.measured_ns >= s.floor_ns ==> (s.precise(
            own_precise,
            all_precise,
        ) <==> all_precise),
        s.alternatives == 1 && s.rounds >= 6 && s.measured_ns >= s.floor_ns ==> (s.precise(
            own_precise,
            all_precise,
        ) <==> own_precise && all_precise),
        s.alternatives != 1 ==> s.precise(own_precise, all_precise) == s.precise(
            !own_precise,
            all_precise,
        ),
        s.rounds < 6 || s.measured_ns < s.floor_ns ==> !s.precise(own_precise, all_precise),
{
}

/// A run stops when it is precise, when the budget is spent or after a million
/// rounds, and goes on otherwise.
pub proof fn law_a_run_goes_on(
    s: SamplingView,
    own_precise: bool,
    all_precise: bool,
    exhausted: bool,
)
    ensures
        s.stops(own_precise, all_precise, true),
        s.precise(own_precise, all_precise) ==> s.stops(own_precise, all_precise, exhausted),
        s.rounds >= 1_000_000 ==> s.stops(own_precise, all_precise, exhausted),
        s.rounds < 1_000_000 && !all_precise ==> !s.stops(own_precise, all_precise, false),
        s.rounds < 1_000_000 && s.measured_ns < s.floor_ns ==> !s.stops(
            own_precise,
            all_precise,
            false,
        ),
        s.rounds < 1_000_000 && s.alternatives == 1 && !own_precise ==> !s.stops(
            own_precise,
            all_precise,
            false,
        ),
{
}

/// The times of two rounds one after the other sum to the two sums, and a
/// single time to itself.
pub proof fn law_times_add_up(a: Seq<u64>, b: Seq<u64>, t: u64)
    ensures
        total(a + b) == total(a) + total(b),
        total(seq![t]) == t,
    decreases b.len(),
{
    assert(seq![t].drop_last() =~= Seq::<u64>::empty());
    assert(total(Seq::<u64>::empty()) == 0);
    if b.len() == 0 {
        assert(a + b =~= a);
    } else {
        law_times_add_up(a, b.drop_last(), t);
        assert((a + b).drop_last() =~= a + b.drop_last());
    }
}

/// A round goes through the alternatives in their own order, from its first
/// place on and round again, so that over the rounds each follows the one
/// before it.
pub proof fn law_a_rotation_keeps_the_order(k: nat, offset: int, step: int)
    requires
        0 <= offset < k,
        0 <= step < k - 1,
    ensures
        rotation(k, offset).len() == k,
        rotation(k, offset)[0] == offset,
        rotation(k, offset)[step + 1] == if rotation(k, offset)[step] == k - 1 {
            0
        } else {
            rotation(k, offset)[step] + 1
        },
{
    vstd::arithmetic::div_mod::lemma_small_mod(offset as nat, k);
    lemma_next_place(offset, step, k as int);
}

/// The largest batch stays within both ceilings, and one more input would
/// pass one of them: 64 MiB of inputs, or two million of them.
pub proof fn law_a_batch_fills_its_ceilings(input_bytes: nat)
    ensures
        unit_cap(input_bytes) * input_bytes <= 64 * 1024 * 1024,
        unit_cap(input_bytes) <= 2_000_000,
        (unit_cap(input_bytes) + 1) * input_bytes > 64 * 1024 * 1024 || unit_cap(input_bytes)
            == 2_000_000,
{
    let d = if input_bytes == 0 {
        1nat
    } else {
        input_bytes
    };
    let all = 67_108_864nat;
    let q = all / d;
    vstd::arithmetic::div_mod::lemma_fundamental_div_mod(all as int, d as int);
    vstd::arithmetic::div_mod::lemma_mod_bound(all as int, d as int);
    let u = unit_cap(input_bytes);
    assert(u * input_bytes <= all) by (nonlinear_arith)
        requires
            u <= q,
            d * q <= all,
            input_bytes <= d,
    ;
    if u < 2_000_000 {
        assert(u == q);
        assert(input_bytes > 0) by {
            if input_bytes == 0 {
                assert(q == all) by (nonlinear_arith)
                    requires
                        q == all / d,
                        d == 1,
                ;
            }
        }
        assert((u + 1) * input_bytes > all) by (nonlinear_arith)
            requires
                u == q,
                input_bytes == d,
                all - d * q < d,
        ;
    }
}

/// A mark says what it says, and an answer with nothing against it has none:
/// the word `limit` exactly where the answer is less precise than asked, the
/// word `untrusted` exactly where its error is not worth reading.
pub proof fn law_marks(hit_limit: bool, untrustworthy: bool)
    ensures
        mark(hit_limit, untrustworthy).len() == 0 <==> !hit_limit && !untrustworthy,
        text::has_part(mark(hit_limit, untrustworthy), "limit"@) <==> hit_limit,
        text::has_part(mark(hit_limit, untrustworthy), "untrusted"@) <==> untrustworthy,
{
    reveal_strlit("limit");
    reveal_strlit("untrusted");
    reveal_strlit(" (limit, untrusted)");
    reveal_strlit(" (limit)");
    reveal_strlit(" (untrusted)");
    reveal_strlit("");
    let m = mark(hit_limit, untrustworthy);
    let (l, u) = ("limit"@, "untrusted"@);
    if hit_limit {
        assert(m.subrange(2, 7) =~= l);
        assert(text::stands_at(m, l, 2));
    } else {
        assert forall|at: int| !text::stands_at(m, l, at) by {
            if text::stands_at(m, l, at) {
                assert(m.subrange(at, at + 5)[0] == 'l');
                assert(m[at] == 'l');
            }
        }
    }
    if untrustworthy {
        let at = if hit_limit {
            9
        } else {
            2
        };
        assert(m.subrange(at, at + 9) =~= u);
        assert(text::stands_at(m, u, at));
    } else {
        assert forall|at: int| !text::stands_at(m, u, at) by {
            if text::stands_at(m, u, at) {
                assert(m.subrange(at, at + 9)[0] == 'u');
                assert(m[at] == 'u');
            }
        }
    }
}

/// Comparisons with different seeds draw from different streams.
pub proof fn law_seeds_tell_streams_apart(a: u64, b: u64)
    requires
        a != b,
    ensures
        first_flip(a) != first_flip(b),
{
    let m = 0x1_0000_0000_0000_0000int;
    let k = 0x2545_F491_4F6C_DD1Dint;
    let x = ((a * k) % m) as u64;
    let y = ((b * k) % m) as u64;
    lemma_scattering_can_be_undone(a as int);
    lemma_scattering_can_be_undone(b as int);
    assert(x != y);
    let flip = 0x9E37_79B9_7F4A_7C15u64;
    assert(flip ^ x != flip ^ y) by (bit_vector)
        requires
            x != y,
    ;
}

/// What multiplying by the scattering factor did can be undone.
proof fn lemma_scattering_can_be_undone(a: int)
    requires
        0 <= a < 0x1_0000_0000_0000_0000,
    ensures
        (((a * 0x2545_F491_4F6C_DD1D) % 0x1_0000_0000_0000_0000) * 6415128727920758069) % 0x1_0000_0000_0000_0000
            == a,
{
    let m = 0x1_0000_0000_0000_0000int;
    let k = 0x2545_F491_4F6C_DD1Dint;
    let back = 6415128727920758069int;
    let times = 934034299265436267int;
    assert(k * back == times * m + 1) by (nonlinear_arith)
        requires
            m == 0x1_0000_0000_0000_0000int,
            k == 0x2545_F491_4F6C_DD1Dint,
            back == 6415128727920758069int,
            times == 934034299265436267int,
    ;
    vstd::arithmetic::div_mod::lemma_mul_mod_noop_left(a * k, back, m);
    assert((a * k) * back == (a * times) * m + a) by (nonlinear_arith)
        requires
            k * back == times * m + 1,
    ;
    vstd::arithmetic::div_mod::lemma_fundamental_div_mod_converse(
        (a * k) * back,
        m,
        a * times,
        a,
    );
}

} // verus!
