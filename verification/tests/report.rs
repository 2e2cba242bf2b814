//! Suites, what they report, and how that is printed.

use scaling::assemble::{Lane, Named, Origin};
use scaling::diagnostic::Diagnostic;
use scaling::filter::Filter;
use scaling::grid::{grid, table, CellText};
use scaling::lines::{
    bare_law_line, changed_line, law_line, measurement_line, unchanged_line, NoError,
};
use scaling::registry::{Candidate, Input, Registered};
use scaling::report::{Found, Report};
use scaling::runner::{
    decide, measuring_note, nothing_to_run, prepare, refusal, warning, Decision, Format, Options,
    Outcome,
};
use scaling::sampling::Finished;
use scaling::suite::{assemble_registered, Suite, Work};
use scaling::timings::{Timing, Timings};

/// What stands for a measured time, in nanoseconds.
fn timing(ns: u64, changed: Option<bool>) -> Timing<u64> {
    Timing {
        measured: ns,
        iterations: 1000,
        samples: 100,
        hit_limit: false,
        untrustworthy: false,
        changed,
    }
}

fn alone(name: &str, ns: u64) -> Found<u8, u64> {
    Found::Timing(Timings::new(vec![name.to_string()], vec![timing(ns, None)]))
}

fn compared(alternatives: &[(&str, u64, Option<bool>)]) -> Found<u8, u64> {
    Found::Timing(Timings::new(
        alternatives.iter().map(|a| a.0.to_string()).collect(),
        alternatives.iter().map(|a| timing(a.1, a.2)).collect(),
    ))
}

fn pair() -> Found<u8, u64> {
    compared(&[("a", 20, None), ("b", 21, Some(false))])
}

fn report_of(entries: Vec<(&str, Found<u8, u64>)>) -> Report<u8, u64> {
    let mut suite = Suite::new();
    let mut found = Vec::new();
    for (name, f) in entries {
        match &f {
            Found::Timing(t) => suite.add_input_group(name, t.len(), 1_000),
            Found::Scaling(_) => suite.add_scaling(name, 1_000),
        };
        found.push(f);
    }
    suite.report(found)
}

#[test]
fn all_three_kinds_share_one_suite() {
    let report = report_of(vec![
        ("flat", alone("flat", 50)),
        ("with input", alone("with input", 32)),
        ("scaled", Found::Scaling(1)),
        ("pair", pair()),
    ]);
    assert!(report.stats("flat").is_some());
    assert!(report.stats("with input").is_some());
    assert!(
        report.scaling("scaled").is_some(),
        "the scaling benchmark reported"
    );
    assert_eq!(report.comparison("pair").unwrap().stats().len(), 2);
}

#[test]
fn the_report_is_in_declaration_order() {
    let report = report_of(vec![
        ("middle", alone("middle", 200)),
        ("zebra", alone("zebra", 1)),
        ("apple", alone("apple", 400)),
    ]);
    let lines = vec!["200ns".to_string(), "1ns".to_string(), "400ns".to_string()];
    let shown = report.render(&lines);
    let names: Vec<&str> = shown
        .lines()
        .map(|l| l.split_whitespace().next().unwrap())
        .collect();
    assert_eq!(names, ["middle", "zebra", "apple"], "{shown}");
    assert_eq!(shown, "middle  200ns\nzebra   1ns\napple   400ns");
}

#[test]
fn the_suite_computes_its_own_threshold() {
    let mut suite = Suite::new();
    // Three alternatives is two comparisons; two alternatives is one.
    suite.add_input_group("three", 3, 20_000_000);
    suite.add_input_group("two", 2, 20_000_000);
    assert_eq!(suite.comparisons(), 3);
}

#[test]
fn each_suite_corrects_for_itself_alone() {
    for _ in 0..2 {
        let mut suite = Suite::new();
        suite.add_input_group("pair", 2, 20_000_000);
        // One comparison each time, not two accumulating across suites.
        assert_eq!(suite.comparisons(), 1);
    }
}

#[test]
fn comparison_configs_do_not_change_the_suite_threshold() {
    let mut suite = Suite::new();
    suite.add_input_group("one", 2, 20_000_000);
    suite.add_input_group("two", 2, 40_000_000);
    assert_eq!(
        suite.comparisons(),
        2,
        "the limit counts the suite's comparisons, whatever each group's budget",
    );
}

#[test]
fn each_alternative_beyond_the_baseline_counts_as_one_comparison() {
    let mut suite = Suite::new();
    // Four alternatives, three of them reported against the baseline.
    let task = suite.add_input_group("four", 4, 200_000_000);
    assert_eq!(suite.comparisons(), 3);
    assert_eq!(task.budget, 800_000_000, "as much for each alternative");
    let next = suite.add_input_group("two", 2, 200_000_000);
    assert_ne!(task.seed, next.seed, "two groups do not draw the same order");
}

#[test]
fn one_alternative_is_a_valid_input_group() {
    let mut suite = Suite::new();
    suite.add("only", 20_000_000);
    assert_eq!(suite.comparisons(), 0);
    let report: Report<u8, u64> = suite.report(vec![alone("only", 1)]);
    let results = match report.find("only") {
        Some(Found::Timing(t)) => t,
        _ => panic!("it is a timing"),
    };
    assert_eq!(results.stats().len(), 1);
    assert_eq!(results.against_baseline().len(), 0);
}

#[test]
fn alternatives_need_not_share_a_return_type() {
    let report = report_of(vec![(
        "g",
        compared(&[("sum", 1, None), ("string", 2, Some(true))]),
    )]);
    let r = report.comparison("g").unwrap();
    assert_eq!(r.baseline_name(), "sum");
    assert_eq!(r.names(), ["sum", "string"]);
    assert_eq!(r.stats().len(), 2);
}

#[test]
fn a_comparison_before_another_entry_leaves_no_blank_line() {
    let report = report_of(vec![("pair", pair()), ("flat", alone("flat", 20))]);
    let block = report
        .comparison("pair")
        .unwrap()
        .render(&texts(&["20ns", "(unchanged)"]), &texts(&["20ns", "21ns"]));
    assert_eq!(block, "a  20ns  (baseline)\nb  21ns  (unchanged)\n");
    let shown = report.render(&vec![block, "20ns".to_string()]);
    assert!(
        !shown.lines().any(|l| l.trim().is_empty()),
        "blank line in report:\n{shown}"
    );
    assert!(shown.lines().last().unwrap().starts_with("flat"), "{shown}");
    assert_eq!(
        shown,
        "pair:\na  20ns  (baseline)\nb  21ns  (unchanged)\nflat  20ns",
    );
}

#[test]
fn one_alternative_runs_without_a_comparison() {
    let report = report_of(vec![("lonely", alone("only", 3))]);
    let stats = report.stats("lonely").expect("it was measured");
    assert!(stats.measured > 0);
    assert!(report.comparison("lonely").is_none());
}

#[test]
fn an_empty_suite_runs() {
    let suite = Suite::new();
    assert!(suite.is_empty());
    assert_eq!(suite.len(), 0);
    let report: Report<u8, u64> = suite.report(vec![]);
    assert_eq!(report.render(&vec![]), "");
}

#[test]
fn a_measurement_can_be_had_by_name() {
    let report = report_of(vec![("summing", alone("summing", 64))]);
    let stats = report.stats("summing").expect("it was measured");
    assert!(stats.measured > 0);
    assert!(report.contains("summing"));
    assert_eq!(report.names(), ["summing"]);
}

#[test]
fn asking_for_the_wrong_type_gives_nothing() {
    let report = report_of(vec![("flat", alone("flat", 64)), ("pair", pair())]);
    assert!(report.stats("flat").is_some());
    assert!(
        report.comparison("flat").is_none(),
        "a flat benchmark is not a comparison",
    );
    assert!(report.comparison("pair").is_some());
    assert!(
        report.stats("pair").is_none(),
        "a comparison is not a flat benchmark",
    );
    assert!(report.stats("never added").is_none());
    assert!(!report.contains("never added"));
}

#[test]
fn every_kind_of_result_can_be_recovered() {
    let report = report_of(vec![
        ("flat", alone("flat", 64)),
        ("scaled", Found::Scaling(7)),
        ("pair", pair()),
    ]);
    assert!(report.stats("flat").is_some());
    assert_eq!(report.scaling("scaled"), Some(&7));
    let cmp = report.comparison("pair").expect("the comparison ran");
    assert_eq!(cmp.stats().len(), 2);
}

#[test]
fn iterating_one_kind_skips_the_rest() {
    let report = report_of(vec![
        ("one", alone("one", 64)),
        ("two", alone("two", 64)),
        ("pair", pair()),
    ]);
    let flat: Vec<&str> = report.all_stats().iter().map(|(n, _)| *n).collect();
    assert_eq!(flat, ["one", "two"], "the comparison is not a `Stats`");
    let cmps: Vec<&str> = report.all_comparisons().iter().map(|(n, _)| *n).collect();
    assert_eq!(cmps, ["pair"]);
}

#[test]
fn a_script_can_ask_which_alternative_is_actually_fastest() {
    let report = report_of(vec![(
        "hashing",
        compared(&[("shipped", 64, None), ("rival", 512, Some(true))]),
    )]);
    let all = report.all_comparisons();
    let (_, cmp) = all
        .iter()
        .find(|(name, _)| *name == "hashing")
        .expect("a comparison called `hashing`");
    let names = cmp.names();
    let fastest = names
        .iter()
        .zip(cmp.stats())
        .min_by_key(|(_, t)| t.measured)
        .map(|(name, _)| *name)
        .expect("at least one alternative");
    assert_eq!(
        fastest, "shipped",
        "the shipped implementation should be the quick one here",
    );
    assert!(cmp.any_changed());
    assert!(!report_of(vec![("p", pair())]).comparison("p").unwrap().any_changed());
}

#[test]
fn the_first_of_two_entries_of_one_name_is_found() {
    let report = report_of(vec![("x", alone("x", 1)), ("x", alone("x", 2))]);
    assert_eq!(report.stats("x").unwrap().measured, 1);
    assert_eq!(report.position("x"), 0);
    assert_eq!(report.position("y"), 2);
}

#[test]
fn each_of_two_entries_of_one_name_has_its_own_result() {
    let report = report_of(vec![("x", alone("x", 1)), ("x", alone("x", 2))]);
    let shown: Vec<String> = (0..report.len())
        .map(|i| match report.found(i) {
            Found::Timing(t) => format!("{}ns", t.timing(0).measured),
            Found::Scaling(_) => panic!("both are timings"),
        })
        .collect();
    assert_eq!(shown, ["1ns", "2ns"]);
    assert_eq!(report.render(&shown), "x  1ns\nx  2ns");
}

#[test]
fn the_alternatives_of_one_run_agree_about_it() {
    let run = Finished { iterations: 70, samples: 7, hit_limit: true, untrustworthy: false };
    let names = vec!["a".to_string(), "b".to_string(), "c".to_string()];
    let t = Timings::of_run(names, vec![10u64, 20, 30], vec![None, Some(true), Some(false)], run);
    assert_eq!(t.names(), ["a", "b", "c"]);
    for (i, changed) in [None, Some(true), Some(false)].into_iter().enumerate() {
        assert_eq!(
            t.timing(i),
            &Timing {
                measured: 10 * (i as u64 + 1),
                iterations: 70,
                samples: 7,
                hit_limit: true,
                untrustworthy: false,
                changed,
            },
        );
    }
}

#[test]
fn display_marks_a_truncated_run() {
    let clean = unchanged_line(Some("0.3%"), false, false);
    assert!(clean.starts_with("(unchanged, would detect"), "{clean}");
    assert!(!clean.contains("limit"), "{clean}");

    let truncated = unchanged_line(Some("0.3%"), true, false);
    assert!(truncated.ends_with(" (limit)"), "{truncated}");

    let untrusted = unchanged_line(Some("0.3%"), false, true);
    assert!(untrusted.ends_with(" (untrusted)"), "{untrusted}");

    let changed = changed_line("+30.0%", "0.1%", true, false);
    assert_eq!("+30.0% \u{b1} 0.1% (limit)", changed);

    assert_eq!(unchanged_line(None, true, true), "(unchanged) (limit, untrusted)");
}

#[test]
fn a_measurement_shows_its_error_or_why_it_has_none() {
    assert_eq!(
        measurement_line("71.00ns", Some("0.12ns"), 6, false, false),
        "    71.00ns ± 0.12ns",
    );
    assert_eq!(
        measurement_line("2.500µs", Some("0.080µs"), 6, true, false),
        "    2.500µs ± 0.080µs (limit)",
    );
    assert_eq!(
        measurement_line("1.0000s", None, 1, true, true),
        "    1.0000s (± unknown, only 1 sample) (limit, untrusted)",
    );
    assert_eq!(
        measurement_line("1.0000s", None, 0, false, false),
        "    1.0000s (± unknown, only 0 samples)",
    );
}

#[test]
fn a_scaling_law_shows_what_it_is_measured_per() {
    assert_eq!(
        law_line("0.51", "ns", 1, Ok("0.02"), 36, false, "0.999"),
        "     (0.51 ± 0.02)ns/N (R²=0.999)",
    );
    assert_eq!(
        law_line("0.00", "ns", 0, Err(NoError::NoLaw), 12, true, "0.000"),
        "    0.00ns/iter (± unknown, no scaling law identified after 12 samples) (limit) \
         (R²=0.000)",
    );
    assert_eq!(
        law_line("0.00", "ns", 2, Err(NoError::ZeroCoefficient), 12, false, "1.000"),
        "    0.00ns/N² (± unknown, the fitted coefficient is zero after 12 samples) (R²=1.000)",
    );
    assert_eq!(bare_law_line("0.510ns", 3), " 0.510ns/N³");
}

fn texts(of: &[&str]) -> Vec<String> {
    of.iter().map(|s| s.to_string()).collect()
}

static STABLE: Candidate = Candidate {
    groups: &["sorting"],
    name: "stable",
    input_type: 6,
    input_type_name: "Vec<u64>",
    is_baseline: true,
    crate_name: "scaling",
    crate_version: "0.9.0",
    add_alt: 1,
};

static UNSTABLE: Candidate = Candidate {
    groups: &["sorting"],
    name: "unstable",
    input_type: 6,
    input_type_name: "Vec<u64>",
    is_baseline: false,
    crate_name: "scaling",
    crate_version: "0.9.0",
    add_alt: 2,
};

static REVERSED: Input = Input {
    groups: &["sorting"],
    name: "reversed",
    crate_name: "scaling",
    crate_version: "0.9.0",
    type_id: 6,
    ty_name: "Vec<u64>",
    make: 1,
};

static SORTED: Input = Input {
    groups: &["sorting"],
    name: "sorted",
    crate_name: "scaling",
    crate_version: "0.9.0",
    type_id: 6,
    ty_name: "Vec<u64>",
    make: 2,
};

fn origin() -> Origin {
    Origin { crate_name: "scaling", crate_version: "0.9.0" }
}

fn lane() -> Lane {
    Lane {
        group: "sorting",
        ty_name: "Vec<u64>",
        candidates: vec![
            Named { name: "stable".to_string(), reg: &STABLE, origin: origin() },
            Named { name: "unstable".to_string(), reg: &UNSTABLE, origin: origin() },
        ],
        inputs: vec![Named { name: "reversed".to_string(), reg: &REVERSED, origin: origin() }],
        needs_type_suffix: false,
    }
}

/// A lane with two inputs, which is a grid of two columns.
fn wide_lane() -> Lane {
    let mut l = lane();
    l.inputs.push(Named { name: "sorted".to_string(), reg: &SORTED, origin: origin() });
    l
}

fn cell(time: &str, percent: &str) -> CellText {
    CellText { time: time.to_string(), percent: percent.to_string() }
}

/// A report holding one comparison under the name a lane's cell has.
fn measured() -> (Report<u8, u64>, Vec<Vec<CellText>>) {
    let report = report_of(vec![(
        "sorting@reversed",
        compared(&[("stable", 64, None), ("unstable", 640, Some(true))]),
    )]);
    (report, vec![vec![cell("64.000ns", ""), cell("640.000ns", "+900.0%")]])
}

#[test]
fn a_lane_prints_as_a_grid() {
    let (report, cells) = measured();
    let mut gridded = Vec::new();
    let out = grid(&report, &cells, &lane(), &mut gridded).expect("the cell was measured");

    assert!(out.contains("sorting"), "{out}");
    assert!(out.contains("(Vec<u64>)"), "the lane's type: {out}");
    assert!(out.contains("baseline: stable"), "the baseline is named: {out}");
    assert!(out.contains("reversed"), "the input is a column: {out}");
    assert!(out.contains("stable"), "{out}");
    assert!(out.contains("unstable"), "{out}");
    assert!(out.contains('%'), "the difference from the baseline: {out}");
    assert!(
        gridded.contains(&"sorting@reversed".to_string()),
        "what the grid showed must not be printed again below it",
    );
    assert_eq!(
        out,
        "sorting  (Vec<u64>)  baseline: stable\n\
         \x20            reversed\n\
         \x20 stable     64.000ns\n\
         \x20 unstable  640.000ns\n\
         \x20             +900.0%\n",
    );
}

#[test]
fn a_difference_that_did_not_clear_the_threshold_is_bracketed() {
    let report = report_of(vec![(
        "sorting@reversed",
        compared(&[("stable", 64, None), ("unstable", 65, Some(false))]),
    )]);
    let cells = vec![vec![cell("64.000ns", ""), cell("65.000ns", "+1.6%")]];
    let out = grid(&report, &cells, &lane(), &mut Vec::new()).unwrap();
    assert!(out.contains("(+1.6%)"), "{out}");
    assert!(
        out.ends_with("  (percentages in brackets did not clear this run's threshold)\n"),
        "{out}",
    );
}

#[test]
fn a_lane_nothing_measured_prints_nothing() {
    let empty = report_of(vec![]);
    let mut gridded = Vec::new();
    assert!(grid(&empty, &vec![], &lane(), &mut gridded).is_none());
    assert!(gridded.is_empty());
}

#[test]
fn without_lanes_the_table_is_the_report() {
    let (report, cells) = measured();
    let shown = texts(&["stable  64ns  (baseline)\nunstable  640ns  +900.0%\n"]);
    assert_eq!(
        table(&report, &shown, &cells, &vec![]),
        format!("{}\n", report.render(&shown)),
    );
}

#[test]
fn a_table_grids_what_has_several_inputs_and_lists_the_rest() {
    let report = report_of(vec![
        ("flat", alone("flat", 7)),
        (
            "sorting@reversed",
            compared(&[("stable", 64, None), ("unstable", 640, Some(true))]),
        ),
    ]);
    let shown = texts(&["7ns", "a\nb\n"]);
    let cells = vec![vec![cell("7ns", "")], vec![cell("64ns", ""), cell("640ns", "+900%")]];
    // One input: no grid, and the comparison is printed as a block.
    assert_eq!(
        table(&report, &shown, &cells, &vec![lane()]),
        "flat              7ns\nsorting@reversed:\na\nb\n",
    );
    // Two inputs, one of them measured: a grid, and only the rest below it.
    assert_eq!(
        table(&report, &shown, &cells, &vec![wide_lane()]),
        "sorting  (Vec<u64>)  baseline: stable\n\
         \x20           reversed\n\
         \x20 stable        64ns\n\
         \x20 unstable     640ns\n\
         \x20              +900%\n\
         \nflat  7ns\n",
    );
}

static COLLIDES_1: Registered =
    Registered { name: "collides", crate_name: "testcrate", crate_version: "1.0.0", add: 1 };
static COLLIDES_2: Registered =
    Registered { name: "collides", crate_name: "testcrate", crate_version: "1.0.0", add: 2 };
static FLAT: Registered =
    Registered { name: "e2e::flat", crate_name: "scaling", crate_version: "0.9.0", add: 3 };

static TWO_BASELINES_A: Candidate = Candidate {
    groups: &["two-baselines"],
    name: "two_baselines_a",
    input_type: 0,
    input_type_name: "()",
    is_baseline: true,
    crate_name: "testcrate",
    crate_version: "1.0.0",
    add_alt: 1,
};
static TWO_BASELINES_B: Candidate = Candidate {
    groups: &["two-baselines"],
    name: "two_baselines_b",
    input_type: 0,
    input_type_name: "()",
    is_baseline: true,
    crate_name: "testcrate",
    crate_version: "1.0.0",
    add_alt: 2,
};

#[test]
fn suite_bad_registrations_are_reported_together_and_nothing_is_added() {
    let regs = [&COLLIDES_1, &COLLIDES_2];
    let cands = [&TWO_BASELINES_A, &TWO_BASELINES_B];
    let problems = assemble_registered(&regs, &cands, &[])
        .expect_err("these registrations contradict each other");

    assert_eq!(problems.len(), 2, "{problems:?}");
    assert!(
        problems
            .iter()
            .any(|p| matches!(p, Diagnostic::DuplicateName { name, .. } if name == "collides")),
        "{problems:?}",
    );
    assert!(
        problems
            .iter()
            .any(|p| matches!(p, Diagnostic::ManyBaselines { group, .. } if group == "two-baselines")),
        "{problems:?}",
    );
    let said = refusal(&problems);
    assert!(said.starts_with("registered benchmarks do not make sense together:\n  - "), "{said}");
    assert_eq!(said.lines().count(), 3);
}

#[test]
fn suite_a_suite_discovers_what_was_registered() {
    let regs = [&FLAT];
    let cands = [&UNSTABLE, &STABLE];
    let inputs = [&REVERSED, &SORTED];
    let a = assemble_registered(&regs, &cands, &inputs).expect("these compose");
    assert!(a.warnings.is_empty());
    assert_eq!(a.lanes.len(), 1);
    let names: Vec<&str> = a.entries.iter().map(|e| e.name.as_str()).collect();
    assert_eq!(names, ["e2e::flat", "sorting@reversed", "sorting@sorted"]);
    assert_eq!(a.entries[0].work, Work::Flat(3));
    let alternatives = vec![("stable".to_string(), 1), ("unstable".to_string(), 2)];
    assert_eq!(a.entries[1].work, Work::Cell(1, alternatives.clone()));
    assert_eq!(a.entries[2].work, Work::Cell(2, alternatives));
}

#[test]
fn suite_the_declared_baseline_is_the_one_used() {
    let a = assemble_registered(&[], &[&UNSTABLE, &STABLE], &[&REVERSED]).unwrap();
    match &a.entries[0].work {
        Work::Cell(_, alternatives) => assert_eq!(alternatives[0].0, "stable"),
        Work::Flat(_) => panic!("a lane is a group"),
    }
}

#[test]
fn a_lone_candidate_is_named_after_itself() {
    let a = assemble_registered(&[], &[&UNSTABLE], &[&REVERSED]).unwrap();
    assert_eq!(a.entries[0].name, "sorting::unstable@reversed");
}

fn mix(baseline: bool, krate: &'static str, version: &'static str, add_alt: usize) -> Candidate {
    Candidate {
        groups: &["mixing"],
        name: "mix",
        input_type: 6,
        input_type_name: "Vec<u64>",
        is_baseline: baseline,
        crate_name: krate,
        crate_version: version,
        add_alt,
    }
}

fn data(version: &'static str, make: usize) -> Input {
    Input {
        groups: &["mixing"],
        name: "data",
        crate_name: "mycrate",
        crate_version: version,
        type_id: 6,
        ty_name: "Vec<u64>",
        make,
    }
}

/// Two versions of one function and a rival, on one input registered twice.
fn rivals() -> (Vec<&'static Candidate>, Vec<&'static Input>) {
    let cands = vec![
        mix(true, "mycrate", "0.9.0", 1),
        mix(true, "mycrate", "0.8.0", 2),
        mix(false, "theircrate", "0.1.0", 3),
    ];
    let inputs = vec![data("0.9.0", 1), data("0.8.0", 2)];
    (
        cands.into_iter().map(|c| &*Box::leak(Box::new(c))).collect(),
        inputs.into_iter().map(|i| &*Box::leak(Box::new(i))).collect(),
    )
}

#[test]
fn suite_versions_and_rivals_are_all_measured_and_distinguished() {
    let (cands, inputs) = rivals();
    let a = assemble_registered(&[], &cands, &inputs).unwrap();
    assert!(a.warnings.is_empty(), "{:?}", a.warnings);
    let cell = a.entries.iter().find(|e| e.name == "mixing@data").expect("the comparison");
    let names: Vec<&str> = match &cell.work {
        Work::Cell(_, alternatives) => alternatives.iter().map(|x| x.0.as_str()).collect(),
        Work::Flat(_) => panic!("a lane is a group"),
    };
    assert_eq!(names.len(), 3, "two of ours and one of theirs: {names:?}");
    assert!(names.contains(&"mix@mycrate-0.9.0"), "{names:?}");
    assert!(names.contains(&"mix@mycrate-0.8.0"), "{names:?}");
    assert!(names.contains(&"mix@theircrate-0.1.0"), "{names:?}");
}

#[test]
fn suite_the_redundant_input_is_measured_once() {
    let (cands, inputs) = rivals();
    let a = assemble_registered(&[], &cands, &inputs).unwrap();
    let cells = a.entries.iter().filter(|e| e.name.starts_with("mixing@")).count();
    assert_eq!(cells, 1, "both versions register `data`, but it is one input");
    match &a.entries[0].work {
        Work::Cell(make, _) => assert_eq!(*make, 1, "the newest generator"),
        Work::Flat(_) => panic!("a lane is a group"),
    }
}

#[test]
fn suite_the_old_version_is_what_the_new_one_is_measured_against() {
    let (cands, inputs) = rivals();
    let a = assemble_registered(&[], &cands, &inputs).unwrap();
    match &a.entries[0].work {
        Work::Cell(_, alternatives) => {
            assert_eq!(alternatives[0].0, "mix@mycrate-0.8.0", "the old version is the baseline");
            let against: Vec<&str> = alternatives[1..].iter().map(|x| x.0.as_str()).collect();
            assert!(against.contains(&"mix@mycrate-0.9.0"), "{against:?}");
        }
        Work::Flat(_) => panic!("a lane is a group"),
    }
}

fn everything() -> (Vec<&'static Registered>, Vec<&'static Candidate>, Vec<&'static Input>) {
    (vec![&FLAT], vec![&STABLE, &UNSTABLE], vec![&REVERSED])
}

#[test]
fn a_run_measures_what_was_registered() {
    let (regs, cands, inputs) = everything();
    let (a, d) = prepare(&regs, &cands, &inputs, &Options::default()).expect("these compose");
    assert_eq!(a.entries.len(), 2);
    assert_eq!(d, Decision::Measure(vec![0, 1]));
    assert_eq!(Outcome::Measured.exit_code(), 0);
    assert_eq!(Outcome::NotRun.exit_code(), 2);
    assert_eq!(Options::default().format, Format::Table);
}

#[test]
fn a_filter_matching_nothing_still_succeeds() {
    let (regs, cands, inputs) = everything();
    let options = Options {
        filter: Filter::everything().matching("no-such-benchmark"),
        format: Format::List,
    };
    let (_, d) = prepare(&regs, &cands, &inputs, &options).expect("these compose");
    assert_eq!(d, Decision::Nothing(nothing_to_run(2)));
    assert_eq!(
        nothing_to_run(2),
        "no measurements were produced from the 2 registered benchmarks",
    );
}

#[test]
fn a_filter_keeps_a_comparison_whole_or_not_at_all() {
    let (regs, cands, inputs) = everything();
    let a = assemble_registered(&regs, &cands, &inputs).unwrap();
    let kept = |f: &Filter| match decide(&a, f) {
        Decision::Measure(k) => k,
        other => panic!("{other:?}"),
    };
    assert_eq!(kept(&Filter::everything().matching("sorting")), [1]);
    assert_eq!(kept(&Filter::everything().skipping("sorting")), [0]);
    assert!(
        matches!(decide(&a, &Filter::everything().matching("unstable")), Decision::Nothing(_)),
        "a filter sees the comparison's name, not its alternatives'",
    );
}

#[test]
fn measure_hands_back_what_it_could_not_assemble() {
    let (regs, cands, inputs) = everything();
    assert!(prepare(&regs, &cands, &inputs, &Options::default()).is_ok());
    let bad = [&TWO_BASELINES_A, &TWO_BASELINES_B];
    let problems = prepare(&[], &bad, &[], &Options::default()).expect_err("a contradiction");
    assert_eq!(problems.len(), 1);
}

#[test]
fn listing_measures_nothing() {
    let (regs, cands, inputs) = everything();
    let options =
        Options { filter: Filter::everything().listing(true), format: Format::Table };
    let (_, d) = prepare(&regs, &cands, &inputs, &options).expect("these compose");
    assert_eq!(
        d,
        Decision::Listing("e2e::flat\nsorting@reversed: stable, unstable".to_string()),
    );
}

#[test]
fn what_is_said_beside_the_results() {
    assert_eq!(measuring_note(1), "measuring 1 benchmark");
    assert_eq!(measuring_note(12), "measuring 12 benchmarks");
    assert!(nothing_to_run(0).starts_with("no benchmarks are registered in this binary.\n"));
    let (_, cands, _) = everything();
    let a = assemble_registered(&[], &cands, &[]).unwrap();
    assert!(a.entries.is_empty());
    assert_eq!(a.warnings.len(), 2);
    assert_eq!(
        warning(&a.warnings[0]),
        "warning: in group `sorting`, `stable` takes `Vec<u64>` but no input of that type is \
         registered, so it was measured on nothing",
    );
}
