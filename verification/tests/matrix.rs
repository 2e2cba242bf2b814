//! Implementations and inputs registered apart from each other, from
//! assembling them to what a report holds.

use scaling::registry::{Candidate, Input, Registered};
use scaling::report::{Found, Report};
use scaling::suite::{assemble_registered, Suite, Work};
use scaling::timings::{Timing, Timings};

const VEC_U64: u64 = 1;
const STRING: u64 = 2;
const VEC_U8: u64 = 3;

fn candidate(
    group: &'static [&'static str],
    name: &'static str,
    ty: u64,
    ty_name: &'static str,
    is_baseline: bool,
) -> Candidate {
    Candidate {
        groups: group,
        name,
        input_type: ty,
        input_type_name: ty_name,
        is_baseline,
        crate_name: "scaling",
        crate_version: "0.9.0",
        add_alt: 0,
    }
}

fn input(
    group: &'static [&'static str],
    name: &'static str,
    ty: u64,
    ty_name: &'static str,
) -> Input {
    Input {
        groups: group,
        name,
        crate_name: "scaling",
        crate_version: "0.9.0",
        type_id: ty,
        ty_name,
        make: 1,
    }
}

fn leak<T>(v: Vec<T>) -> Vec<&'static T> {
    v.into_iter().map(|x| &*Box::leak(Box::new(x))).collect()
}

/// What a benchmark called `name` is taken to have measured.
fn timing(k: usize) -> Timing<u64> {
    Timing {
        measured: 100 + k as u64,
        iterations: 1000,
        samples: 100,
        hit_limit: false,
        untrustworthy: false,
        changed: if k == 0 { None } else { Some(true) },
    }
}

fn timings(names: Vec<String>) -> Found<u8, u64> {
    let measured = (0..names.len()).map(timing).collect();
    Found::Timing(Timings::new(names, measured))
}

/// Assemble, add everything to a suite that may hold more, and report.
fn report_with(
    before: &[&str],
    regs: &[&'static Registered],
    cands: &[&'static Candidate],
    inputs: &[&'static Input],
    after: &[&str],
) -> Report<u8, u64> {
    let a = assemble_registered(regs, cands, inputs).expect("these registrations compose");
    assert!(a.warnings.is_empty(), "{:?}", a.warnings);
    let mut suite = Suite::new();
    let mut found = Vec::new();
    for name in before {
        suite.add(name, 30_000_000);
        found.push(timings(vec![name.to_string()]));
    }
    for e in &a.entries {
        match &e.work {
            Work::Flat(1) => {
                suite.add_scaling(&e.name, 30_000_000);
                found.push(Found::Scaling(1));
            }
            Work::Flat(_) => {
                suite.add(&e.name, 30_000_000);
                found.push(timings(vec![e.name.clone()]));
            }
            Work::Cell(_, alternatives) => {
                suite.add_input_group(&e.name, alternatives.len(), 30_000_000);
                found.push(timings(alternatives.iter().map(|x| x.0.clone()).collect()));
            }
        }
    }
    for name in after {
        suite.add(name, 30_000_000);
        found.push(timings(vec![name.to_string()]));
    }
    suite.report(found)
}

fn run() -> Report<u8, u64> {
    let u64s = "Vec<u64>";
    let cands = vec![
        candidate(&["sorting"], "stable", VEC_U64, u64s, true),
        candidate(&["sorting"], "unstable", VEC_U64, u64s, false),
        candidate(&["sorting"], "thrice", VEC_U64, u64s, false),
        candidate(&["hashing"], "sum_bytes", STRING, "String", true),
        candidate(&["hashing"], "fold_bytes", STRING, "String", false),
        candidate(&["sized"], "total", VEC_U64, u64s, true),
        candidate(&["sized"], "total_folded", VEC_U64, u64s, false),
        candidate(&["stateful"], "plain_sum", VEC_U64, u64s, true),
        candidate(&["stateful"], "cached_sum", VEC_U64, u64s, false),
        candidate(&["generic"], "byte_sum", STRING, "String", false),
        candidate(&["generic"], "byte_sum", VEC_U8, "Vec<u8>", false),
        candidate(&["generic"], "byte_fold", STRING, "String", false),
        candidate(&["generic"], "byte_fold", VEC_U8, "Vec<u8>", false),
    ];
    let inputs = vec![
        input(&["sorting"], "reversed", VEC_U64, u64s),
        input(&["sorting"], "sorted", VEC_U64, u64s),
        input(&["hashing"], "short", STRING, "String"),
        input(&["sized"], "ramp@64", VEC_U64, u64s),
        input(&["sized"], "ramp@256", VEC_U64, u64s),
        input(&["sized"], "flat@32", VEC_U64, u64s),
        input(&["sized"], "flat@128", VEC_U64, u64s),
        input(&["stateful"], "data", VEC_U64, u64s),
        input(&["generic"], "text", STRING, "String"),
        input(&["generic"], "bytes", VEC_U8, "Vec<u8>"),
    ];
    report_with(&[], &[], &leak(cands), &leak(inputs), &[])
}

#[test]
fn every_pairing_is_measured() {
    let report = run();
    for input in ["reversed", "sorted"] {
        let cmps = report
            .comparison(&format!("sorting@{input}"))
            .unwrap_or_else(|| panic!("sorting@{input} did not run"));
        assert_eq!(cmps.stats().len(), 3, "three candidates on {input}");
        assert_eq!(cmps.against_baseline().len(), 2);
    }
    let hashing = report.comparison("hashing@short").unwrap();
    assert_eq!(hashing.stats().len(), 2);
    for size in [64, 256] {
        assert!(
            report.contains(&format!("sized@ramp@{size}")),
            "expected a comparison per size",
        );
    }
    for size in [32, 128] {
        assert!(report.contains(&format!("sized@flat@{size}")));
        assert!(!report.contains(&format!("sized@flat_of_len@{size}")));
    }
}

#[test]
fn lanes_of_different_types_stay_apart() {
    let report = run();
    assert!(report.contains("sorting@reversed"));
    assert!(report.contains("hashing@short"));
    assert!(
        !report.contains("sorting@short"),
        "a Vec<u64> candidate must not be paired with a String input",
    );
    assert!(
        !report.contains("hashing@reversed"),
        "a String candidate must not be paired with a Vec<u64> input",
    );
}

#[test]
fn a_comparison_still_has_every_absolute_timing() {
    let report = run();
    let cmps = report.comparison("sorting@reversed").unwrap();
    for stats in cmps.stats() {
        assert!(stats.measured > 0, "every cell keeps its own measured time, not only a ratio");
    }
}

#[test]
fn the_declared_baseline_wins_over_alphabetical_order() {
    let report = run();
    let cmps = report.comparison("sorting@reversed").unwrap();
    let against: Vec<&str> = cmps.against_baseline().into_iter().map(|(n, _)| n).collect();
    assert_eq!(against.len(), 2);
    assert!(!against.contains(&"stable"), "{against:?}");
    assert!(against.contains(&"unstable"), "{against:?}");
    assert!(against.contains(&"thrice"), "{against:?}");
}

#[test]
fn a_design_a_candidate_is_measured_like_any_other() {
    let report = run();
    let cmps = report.comparison("stateful@data").expect("stateful@data did not run");
    assert_eq!(cmps.stats().len(), 2);
    assert_eq!(cmps.against_baseline().len(), 1);
}

#[test]
fn a_generic_candidate_is_registered_once_per_listed_type() {
    let report = run();
    for input in ["text", "bytes"] {
        let cmps = report
            .comparison(&format!("generic@{input}"))
            .unwrap_or_else(|| panic!("generic@{input} did not run"));
        assert_eq!(
            cmps.stats().len(),
            2,
            "both candidates should be instantiated for {input}",
        );
    }
}

fn sort(is_baseline: bool, crate_name: &'static str, crate_version: &'static str) -> Candidate {
    Candidate {
        groups: &["regress"],
        name: "sort",
        input_type: VEC_U64,
        input_type_name: "Vec<u64>",
        is_baseline,
        crate_name,
        crate_version,
        add_alt: 0,
    }
}

fn regress_data(crate_version: &'static str) -> Input {
    Input {
        groups: &["regress"],
        name: "data",
        crate_name: "mycrate",
        crate_version,
        type_id: VEC_U64,
        ty_name: "Vec<u64>",
        make: 1,
    }
}

/// Two versions of one crate and a rival on a lower version number.
fn regress() -> Report<u8, u64> {
    let cands = vec![
        sort(true, "mycrate", "0.9.0"),
        sort(true, "mycrate", "0.8.0"),
        sort(false, "theircrate", "0.1.0"),
    ];
    let inputs = vec![regress_data("0.9.0"), regress_data("0.8.0")];
    report_with(&[], &[], &leak(cands), &leak(inputs), &[])
}

#[test]
fn versions_versions_and_rivals_are_all_measured_and_distinguished() {
    let report = regress();
    let cmps = report.comparison("regress@data").expect("the comparison ran");
    let names = cmps.names();
    assert_eq!(names.len(), 3, "two of ours and one of theirs: {names:?}");
    assert!(names.contains(&"sort@mycrate-0.9.0"), "{names:?}");
    assert!(names.contains(&"sort@mycrate-0.8.0"), "{names:?}");
    assert!(names.contains(&"sort@theircrate-0.1.0"), "{names:?}");
}

#[test]
fn versions_the_redundant_input_is_measured_once() {
    let report = regress();
    let matrix_entries: Vec<&str> =
        report.names().into_iter().filter(|k| k.starts_with("regress@")).collect();
    assert_eq!(
        matrix_entries.len(),
        1,
        "both versions register `data`, but it is one input: {matrix_entries:?}",
    );
}

#[test]
fn versions_the_old_version_is_what_the_new_one_is_measured_against() {
    let report = regress();
    let cmps = report.comparison("regress@data").unwrap();
    let against: Vec<&str> = cmps.against_baseline().into_iter().map(|(n, _)| n).collect();
    assert!(
        !against.contains(&"sort@mycrate-0.8.0"),
        "the old version is the baseline, not a candidate: {against:?}",
    );
    assert!(against.contains(&"sort@mycrate-0.9.0"), "{against:?}");
}

/// Two benchmarks that stand alone, one of them a scaling benchmark, and a
/// group of three.
fn e2e(before: &[&str], after: &[&str]) -> Report<u8, u64> {
    let regs = vec![
        Registered {
            name: "e2e::flat",
            crate_name: "scaling",
            crate_version: "0.9.0",
            add: 0,
        },
        Registered {
            name: "e2e::scaling",
            crate_name: "scaling",
            crate_version: "0.9.0",
            add: 1,
        },
    ];
    let cands = vec![
        candidate(&["e2e-sort"], "e2e::sort_stable", VEC_U64, "Vec<u64>", true),
        candidate(&["e2e-sort"], "e2e::sort_unstable", VEC_U64, "Vec<u64>", false),
        candidate(&["e2e-sort"], "e2e::sort_thrice", VEC_U64, "Vec<u64>", false),
    ];
    let inputs = vec![input(&["e2e-sort"], "data", VEC_U64, "Vec<u64>")];
    report_with(before, &leak(regs), &leak(cands), &leak(inputs), after)
}

#[test]
fn suite_registered_and_hand_added_benchmarks_mix() {
    let report = e2e(&["e2e::by_hand"], &["e2e::after"]);
    assert!(report.stats("e2e::by_hand").is_some(), "the hand-added one ran");
    assert!(report.stats("e2e::after").is_some(), "so did the one added afterwards");
    assert!(report.stats("e2e::flat").is_some(), "so did the registered one");
    let shown: Vec<String> = report.names().iter().map(|_| "shown".to_string()).collect();
    let shown = report.render(&shown);
    assert!(shown.contains("e2e::by_hand"), "{shown}");
    assert!(shown.contains("e2e::flat"), "{shown}");
}

#[test]
fn registered_results_are_recoverable_from_the_report_alone() {
    let report = e2e(&[], &[]);
    let stats = report.stats("e2e::flat").expect("the flat benchmark's measurement comes back");
    assert!(stats.measured > 0);
    let cmp = report.comparison("e2e-sort@data").expect("the comparison comes back too");
    assert_eq!(cmp.stats().len(), 3);
    assert!(report.scaling("e2e::scaling").is_some());
}
