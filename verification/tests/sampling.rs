//! How long to sample, in what order, on what sizes, and within what budget.

use scaling::clock::{budget_for, Clock, MAX_DURATION_NS};
use scaling::family::Family;
use scaling::inputs::{clone_into, refill};
use scaling::ladder::{
    choose_sizes, judge, max_degree, opens_another_round, refined, scale_suffix, Climb, Goodness,
    Verdict, INITIAL_REPEATS, MAX_CLIMB_STEPS, MIN_MEASURABLE_NS, NUM_SIZES,
};
use scaling::sampling::{
    limit_mark, only_probed, probe_ceiling_ns, Calibration, Finished, Sampling, MAX_SAMPLES,
};
use scaling::scheduler::Scheduler;

/// Run a scheduler over tasks that each want so many more polls after their
/// first, and log who was polled.
fn polled(yields: &[usize], seed: u64) -> Vec<usize> {
    let mut left: Vec<usize> = yields.to_vec();
    let mut finished = vec![false; yields.len()];
    let mut log = Vec::new();
    let mut scheduler = Scheduler::new(seed, yields.len());
    while !scheduler.is_done() {
        for id in scheduler.begin_round() {
            log.push(id);
            if left[id] == 0 {
                finished[id] = true;
            } else {
                left[id] -= 1;
            }
        }
        scheduler.end_round(&finished);
    }
    log
}

#[test]
fn every_round_polls_everyone_exactly_once() {
    const N: usize = 5;
    const ROUNDS: usize = 4;
    let log = polled(&[ROUNDS; N], 0x243f_6a88_85a3_08d3);
    assert_eq!(log.len(), N * (ROUNDS + 1));
    for round in log.chunks(N) {
        let mut seen = round.to_vec();
        seen.sort_unstable();
        seen.dedup();
        assert_eq!(seen.len(), N, "a round polled someone twice: {round:?}");
    }
}

#[test]
fn the_starting_position_moves_between_rounds() {
    let log = polled(&[20; 4], 0x9e37_79b9_7f4a_7c15);
    let mut firsts: Vec<usize> = log.chunks(4).map(|round| round[0]).collect();
    firsts.sort_unstable();
    firsts.dedup();
    assert!(firsts.len() > 1);
}

#[test]
fn the_neighbour_order_varies_too() {
    const N: usize = 3;
    let log = polled(&[40; N], 0x2545_f491_4f6c_dd1d);
    let mut predecessors: Vec<usize> = log
        .windows(2)
        .filter(|window| window[1] == 0)
        .map(|window| window[0])
        .collect();
    predecessors.sort_unstable();
    predecessors.dedup();
    assert!(predecessors.contains(&1) && predecessors.contains(&2));
}

#[test]
fn retiring_early_does_not_skip_a_neighbour() {
    let log = polled(&[0, 3, 7], 0x2545_f491_4f6c_dd1d);
    let polls = |id: usize| log.iter().filter(|&&value| value == id).count();
    assert_eq!(polls(0), 1);
    assert_eq!(polls(1), 4);
    assert_eq!(polls(2), 8);
}

#[test]
fn an_empty_scheduler_finishes() {
    assert!(polled(&[], 1).is_empty());
}

#[test]
fn a_spent_budget_is_reported() {
    // 20ms of budget in 5ms turns, with time between them that is not charged.
    let mut clock = Clock::new(20_000_000);
    let mut now: u128 = 0;
    let mut turns = 0;
    loop {
        clock.begin_poll(now);
        now += 5_000_000;
        assert_eq!(clock.this_poll(now), 5_000_000);
        clock.end_poll(now);
        turns += 1;
        now += 1_000_000_000;
        if clock.exhausted(now) {
            break;
        }
    }
    assert_eq!(turns, 4);
    assert_eq!(clock.spent(now), 20_000_000);
    assert_eq!(clock.budget(), 20_000_000);
    assert_eq!(clock.this_poll(now), 0, "between turns nothing is charged");
}

#[test]
fn a_budget_too_large_to_hold_is_held() {
    assert_eq!(budget_for(10_000_000_000, 3), 30_000_000_000);
    assert_eq!(budget_for(MAX_DURATION_NS, 1), MAX_DURATION_NS);
    assert_eq!(budget_for(MAX_DURATION_NS, 2), MAX_DURATION_NS);
    assert_eq!(budget_for(u128::MAX, usize::MAX), MAX_DURATION_NS);
}

#[test]
fn consecutive_comparisons_get_different_seeds() {
    let mut family = Family::default();
    let a = family.claim_comparisons(1);
    let b = family.claim_comparisons(1);
    let c = family.claim_comparisons(1);
    assert_ne!(a, b);
    assert_ne!(b, c);
}

#[test]
fn a_template_can_be_planned_several_ways() {
    let base = Family::default();
    let two = base.with_comparisons_planned(2);
    let three = base.with_comparisons_planned(3);
    assert_eq!(base.num_comparisons_planned(), 0);
    assert!(!base.plan_set_by_caller());
    assert_eq!(two.num_comparisons_planned(), 2);
    assert_eq!(three.num_comparisons_planned(), 3);
    assert!(three.plan_set_by_caller());

    let mut counted = base;
    counted.set_comparisons_planned(4);
    assert_eq!(counted.add_comparisons_planned(3), 7);
    assert_eq!(counted.num_comparisons_planned(), 7);
}

#[test]
fn every_round_measures_everyone_from_a_moving_start() {
    let mut s = Sampling::new(3, 10, 31, 0);
    let mut starts = Vec::new();
    for _ in 0..20 {
        let order = s.next_order();
        assert_eq!(order[1], (order[0] + 1) % 3);
        assert_eq!(order[2], (order[0] + 2) % 3);
        starts.push(order[0]);
    }
    starts.sort_unstable();
    starts.dedup();
    assert_eq!(starts, [0, 1, 2]);

    let first = |seed: u64| -> Vec<usize> {
        let mut s = Sampling::new(5, 1, 0, seed);
        (0..8).map(|_| s.next_order()[0]).collect()
    };
    assert_ne!(first(1), first(2), "two groups do not draw the same starts");
}

#[test]
fn a_run_needs_rounds_time_and_precision_to_conclude() {
    // Two alternatives want three milliseconds each.
    let mut s = Sampling::new(2, 10, 31, 7);
    for round in 1..=6 {
        s.record(&vec![400_000, 500_000]);
        assert_eq!(s.verdict(true, false, false), None, "round {round}");
        assert_eq!(s.verdict(false, true, false), None, "round {round} is too early");
        assert_eq!(s.verdict(false, true, true), Some(false), "the budget ended round {round}");
    }
    // 5.4ms measured so far, of six.
    s.record(&vec![400_000, 500_000]);
    assert_eq!(s.verdict(false, true, false), Some(true));
    assert_eq!(s.verdict(true, false, true), Some(false));
    assert_eq!(
        s.finish(true),
        Finished { iterations: 31 + 7 * 10, samples: 7, hit_limit: false, untrustworthy: false },
    );
    assert!(s.finish(false).hit_limit);
}

#[test]
fn a_lone_benchmark_samples_until_its_own_error_is_small() {
    let mut s = Sampling::new(1, 10, 0, 7);
    for _ in 0..8 {
        s.record(&vec![1_000_000]);
    }
    assert_eq!(s.verdict(false, true, false), None, "there is no difference to be precise about");
    assert_eq!(s.verdict(false, true, true), Some(false));
    assert_eq!(s.verdict(true, true, false), Some(true));
}

#[test]
fn a_short_run_says_it_is_not_to_be_trusted() {
    let mut s = Sampling::flat(4, 7);
    s.record(&vec![1_000_000_000]);
    s.record(&vec![1_000_000_000]);
    assert_eq!(s.verdict(true, true, false), None, "two samples are too few to conclude");
    assert_eq!(s.verdict(false, true, true), Some(false));
    assert_eq!(
        s.finish(false),
        Finished { iterations: 15, samples: 2, hit_limit: true, untrustworthy: true },
    );
    assert_eq!(
        only_probed(9),
        Finished { iterations: 9, samples: 1, hit_limit: true, untrustworthy: true },
    );
}

#[test]
fn a_run_ends_by_the_backstop() {
    let mut s = Sampling::flat(1, 0);
    for _ in 0..MAX_SAMPLES {
        assert_eq!(s.verdict(false, true, false), None);
        s.record(&vec![1]);
    }
    assert_eq!(s.verdict(false, true, false), Some(false));
}

#[test]
fn calibration_grows_until_a_ceiling() {
    let mut c = Calibration::new(8);
    assert_eq!(c.unit(), 1);
    assert!(!c.accept(10, 20, 5_000_000, false));
    c.grow(1);
    assert_eq!(c.unit(), 2, "always at least one more");
    assert!(!c.accept(10, 20, 5_000_000, false));
    c.grow(200);
    assert_eq!(c.unit(), 200);
    assert_eq!(c.probed(), 3);
    assert!(!c.accept(99_999, 200_000, 5_000_000, false));
    c.grow(usize::MAX);
    assert_eq!(c.unit(), 2_000_000, "and never past the cap");
    assert!(c.accept(10, 20, 5_000_000, false));
    assert_eq!(c.probed(), 2_000_203);

    assert!(Calibration::new(8).accept(100_000, 100_000, 5_000_000, false), "long enough");
    assert!(Calibration::new(8).accept(10, 5_000_000, 5_000_000, false), "took an age");
    assert!(Calibration::new(8).accept(10, 20, 5_000_000, true), "out of budget");
    assert!(Calibration::new(1 << 27).accept(10, 20, 5_000_000, false), "a huge input");

    let mut wide = Calibration::new(1 << 20);
    wide.accept(10, 20, 5_000_000, false);
    wide.grow(1000);
    assert_eq!(wide.unit(), 64, "as many as fit the bytes");

    assert_eq!(probe_ceiling_ns(10_000_000_000), 100_000_000);
    assert_eq!(probe_ceiling_ns(1_000), 5_000_000);
}

#[test]
fn marks_say_what_is_wrong() {
    assert_eq!(limit_mark(true, true), " (limit, untrusted)");
    assert_eq!(limit_mark(true, false), " (limit)");
    assert_eq!(limit_mark(false, true), " (untrusted)");
    assert_eq!(limit_mark(false, false), "");
}

#[test]
fn a_batch_is_made_afresh_and_copied_whole() {
    let mut n = 0u64;
    let mut make = || {
        n += 1;
        vec![n]
    };
    let mut master = vec![vec![99]];
    refill(&mut make, &mut master, 3);
    assert_eq!(master, [vec![1], vec![2], vec![3]]);
    refill(&mut make, &mut master, 2);
    assert_eq!(master, [vec![4], vec![5]]);
    let mut xs = vec![vec![0], vec![0], vec![0]];
    clone_into(&master, &mut xs, &|v: &Vec<u64>| v.clone());
    assert_eq!(xs, master);
    xs[0].push(7);
    assert_eq!(master[0], [4], "what is done to a copy stays there");
}

const TIME_SPAN: f64 = 4.0;

/// The log-spaced rungs from `lo` in units of `nmin`, for a cost that grows
/// with a power of the size.
fn quotients(lo: usize, nmin: usize, exponent: f64) -> Vec<usize> {
    let span = TIME_SPAN.powf(1.0 / exponent).min(64.0);
    let ratio = span.powf(1.0 / (NUM_SIZES - 1) as f64);
    (0..NUM_SIZES)
        .map(|i| (lo as f64 * ratio.powi(i as i32) / nmin as f64).round().max(1.0) as usize)
        .collect()
}

fn ladder(lo: usize, nmin: usize, exponent: f64) -> Vec<usize> {
    choose_sizes(lo, nmin, &quotients(lo, nmin, exponent))
}

#[test]
fn the_ladder_always_has_enough_rungs_to_fit() {
    for lo in [1usize, 2, 7, 100, 20_000] {
        for p in [0.5, 1.0, 2.0, 3.0] {
            let sizes = ladder(lo, 1, p);
            assert_eq!(NUM_SIZES, sizes.len(), "lo={lo} p={p} gave {sizes:?}");
            assert!(
                sizes.windows(2).all(|w| w[0] < w[1]),
                "lo={lo} p={p} not increasing: {sizes:?}"
            );
            assert!(sizes[0] >= lo, "lo={lo}: {sizes:?} starts below the floor");
        }
    }
}

#[test]
fn a_ladder_keeps_the_caller_unit() {
    for nmin in [3usize, 64, 1000] {
        for p in [1.0, 3.0] {
            let sizes = ladder(nmin, nmin, p);
            assert!(sizes.iter().all(|n| n % nmin == 0), "nmin={nmin} p={p}: {sizes:?}");
        }
    }
}

#[test]
fn the_ladder_spans_a_fixed_amount_of_time_not_of_size() {
    let mut tops = Vec::new();
    for p in [1.0, 2.0, 3.0] {
        let sizes = ladder(20_000, 1, p);
        assert_eq!(NUM_SIZES, sizes.len(), "p={p}: {sizes:?} collapsed");
        let time_span = (*sizes.last().unwrap() as f64 / 20_000.0).powf(p);
        assert!(
            (time_span - TIME_SPAN).abs() < 0.1 * TIME_SPAN,
            "p={p}: {sizes:?} spans {time_span}x in time, wanted {TIME_SPAN}x"
        );
        tops.push(*sizes.last().unwrap());
    }
    assert!(
        tops[0] > tops[1] && tops[1] > tops[2],
        "faster growth must reach the same time in fewer sizes, got {tops:?}"
    );
}

#[test]
fn the_opening_rounds_cost_what_the_arithmetic_says() {
    let lo_time = MIN_MEASURABLE_NS as f64;
    let sizes = ladder(1000, 1, 1.0);
    let round: f64 = sizes.iter().map(|&n| lo_time * n as f64 / 1000.0).sum();
    let opening = round * INITIAL_REPEATS as f64;
    assert!(
        opening < 2e6,
        "opening rounds came to {opening}ns, expected under 2ms"
    );
}

#[test]
fn a_forced_ladder_is_the_cheapest_one_that_fits() {
    assert_eq!(vec![1, 2, 3, 4, 5, 6], ladder(1, 1, 3.0));
}

#[test]
fn a_climb_goes_up_in_units_and_ends() {
    let mut c = Climb::new(64);
    assert_eq!(c.largest(), 64);
    assert_eq!(c.next(false, false, Some(200)), Some(192));
    assert_eq!(c.largest(), 192);
    assert_eq!(c.next(false, false, Some(200)), None, "no step upwards");
    assert_eq!(c.next(false, true, Some(1000)), None, "long enough to time");
    assert_eq!(c.next(true, false, Some(1000)), None, "out of time");
    assert_eq!(c.next(false, false, None), None);
    assert_eq!(c.probe(Some(1000)), None, "a rate is known already");

    let mut many = Climb::new(0);
    for i in 0..MAX_CLIMB_STEPS {
        assert_eq!(many.next(false, false, Some(i + 2)), Some(i + 2));
    }
    assert_eq!(many.next(false, false, Some(1000)), None, "enough steps");

    let fresh = Climb::new(10);
    assert_eq!(fresh.probe(Some(45)), Some(40));
    assert_eq!(fresh.probe(Some(15)), None);
    assert_eq!(fresh.largest(), 10, "a probe does not move the floor");
}

#[test]
fn rounds_are_opened_and_refined() {
    assert!(opens_another_round(0, true));
    assert!(opens_another_round(1, true), "an error needs two points");
    assert!(!opens_another_round(2, true));
    assert!(opens_another_round(5, false));
    assert!(!opens_another_round(6, false));
    assert_eq!(refined(true, true, true), Some(false), "a limit it did not need");
    assert_eq!(refined(true, true, false), Some(false));
    assert_eq!(refined(true, false, true), Some(true));
    assert_eq!(refined(true, false, false), None);
    assert_eq!(refined(false, true, false), None, "precise about a shape that was rejected");
    assert_eq!(refined(false, true, true), Some(true));
    assert_eq!(max_degree(1), 0);
    assert_eq!(max_degree(4), 2);
    assert_eq!(max_degree(6), 3);
}

#[test]
fn a_sweep_says_what_it_believes() {
    let says = |power, goodness, hit_limit| Verdict { power, goodness, hit_limit };
    assert_eq!(judge(None, false), says(0, Goodness::Unidentified, true));
    assert_eq!(judge(Some((2, true)), false), says(2, Goodness::Unidentified, true));
    assert_eq!(judge(Some((0, false)), false), says(0, Goodness::Settled, false));
    assert_eq!(judge(Some((1, false)), false), says(1, Goodness::Share, false));
    assert_eq!(judge(Some((1, false)), true), says(1, Goodness::Share, true));
}

#[test]
fn a_coefficient_says_what_it_is_per() {
    let said: Vec<String> = (0..11).map(scale_suffix).collect();
    assert_eq!(
        said,
        [
            "/iter", "/N", "/N²", "/N³", "/N⁴", "/N⁵", "/N⁶", "/N⁷", "/N⁸", "/N⁹", "/N^10"
        ],
    );
}
