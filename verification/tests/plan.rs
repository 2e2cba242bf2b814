//! Plans made from registrations.

use scaling::assemble::{plan, Diagnostic, Key, Lane, Named, Origin, Plan, Version};
use scaling::lane::oldest_claimant;
use scaling::registry::{Candidate, Input, Registered};
use scaling::resolve::resolve_versions;
use std::any::TypeId;

/// A number for each of the types the tests name, zero for the unit type.
fn id<I: 'static>() -> u64 {
    let known = [
        TypeId::of::<()>(),
        TypeId::of::<u8>(),
        TypeId::of::<u16>(),
        TypeId::of::<String>(),
        TypeId::of::<Vec<u8>>(),
        TypeId::of::<Vec<i32>>(),
        TypeId::of::<Vec<u64>>(),
    ];
    known.iter().position(|t| *t == TypeId::of::<I>()).expect("a type listed above") as u64
}

fn flat(name: &'static str) -> Registered {
    Registered { name, crate_name: "testcrate", crate_version: "1.0.0", add: 0 }
}

fn flat_at(name: &'static str, version: &'static str) -> Registered {
    Registered { name, crate_name: "mycrate", crate_version: version, add: 0 }
}

fn leak(rs: Vec<Registered>) -> Vec<&'static Registered> {
    rs.into_iter().map(|r| &*Box::leak(Box::new(r))).collect()
}

fn leak_r(rs: Vec<Registered>) -> Vec<&'static Registered> {
    leak(rs)
}

fn leak_c(v: Vec<Candidate>) -> Vec<&'static Candidate> {
    v.into_iter().map(|x| &*Box::leak(Box::new(x))).collect()
}

fn leak_i(v: Vec<Input>) -> Vec<&'static Input> {
    v.into_iter().map(|x| &*Box::leak(Box::new(x))).collect()
}

fn one_group(g: &'static str) -> &'static [&'static str] {
    Box::leak(vec![g].into_boxed_slice())
}

fn cand_in_from<I: 'static>(
    groups: &'static [&'static str],
    name: &'static str,
    ty: &'static str,
    is_baseline: bool,
    crate_name: &'static str,
    crate_version: &'static str,
) -> Candidate {
    Candidate {
        groups,
        name,
        input_type: id::<I>(),
        input_type_name: ty,
        is_baseline,
        crate_name,
        crate_version,
        add_alt: 0,
    }
}

fn cand_in<I: 'static>(
    groups: &'static [&'static str],
    name: &'static str,
    ty: &'static str,
    is_baseline: bool,
) -> Candidate {
    cand_in_from::<I>(groups, name, ty, is_baseline, "testcrate", "1.0.0")
}

fn cand<I: 'static>(
    group: &'static str,
    name: &'static str,
    ty: &'static str,
    is_baseline: bool,
) -> Candidate {
    cand_in::<I>(one_group(group), name, ty, is_baseline)
}

fn cand_from<I: 'static>(
    group: &'static str,
    name: &'static str,
    ty: &'static str,
    is_baseline: bool,
    crate_name: &'static str,
    crate_version: &'static str,
) -> Candidate {
    cand_in_from::<I>(one_group(group), name, ty, is_baseline, crate_name, crate_version)
}

fn inp_in_from<I: 'static>(
    groups: &'static [&'static str],
    name: &'static str,
    ty: &'static str,
    crate_name: &'static str,
    crate_version: &'static str,
) -> Input {
    Input {
        groups,
        name,
        crate_name,
        crate_version,
        type_id: id::<I>(),
        ty_name: ty,
        make: 1,
    }
}

fn inp_in<I: 'static>(
    groups: &'static [&'static str],
    name: &'static str,
    ty: &'static str,
) -> Input {
    inp_in_from::<I>(groups, name, ty, "testcrate", "1.0.0")
}

fn inp<I: 'static>(group: &'static str, name: &'static str, ty: &'static str) -> Input {
    inp_in::<I>(one_group(group), name, ty)
}

fn inp_from<I: 'static>(
    group: &'static str,
    name: &'static str,
    ty: &'static str,
    crate_name: &'static str,
    crate_version: &'static str,
) -> Input {
    inp_in_from::<I>(one_group(group), name, ty, crate_name, crate_version)
}

fn lanes(
    candidates: &[&'static Candidate],
    inputs: &[&'static Input],
) -> (Vec<Lane>, Vec<Diagnostic>) {
    let (p, problems) = plan(&[], candidates, inputs);
    (p.lanes, problems)
}

/// What each candidate is and where it came from, within a group.
fn keys_of(cs: &[&'static Candidate], scope: &'static str) -> Vec<(Key, Origin)> {
    cs.iter()
        .map(|c| {
            (
                Key { scope, ty_name: c.input_type_name, name: c.name },
                Origin { crate_name: c.crate_name, crate_version: c.crate_version },
            )
        })
        .collect()
}

#[test]
fn flat_benchmarks_come_out_sorted() {
    let regs = leak(vec![flat("zebra"), flat("apple"), flat("middle")]);
    let (plan, problems) = plan(&regs, &[], &[]);
    assert!(problems.is_empty(), "{problems:?}");
    let names: Vec<&str> = plan.flat.iter().map(|r| r.name.as_str()).collect();
    assert_eq!(names, ["apple", "middle", "zebra"]);
    assert!(plan.lanes.is_empty());
}

#[test]
fn the_order_registrations_arrive_in_does_not_matter() {
    let forward = leak(vec![flat("a"), flat("b"), flat("c")]);
    let backward = leak(vec![flat("c"), flat("b"), flat("a")]);
    let (one, _) = plan(&forward, &[], &[]);
    let (two, _) = plan(&backward, &[], &[]);
    let names =
        |p: &Plan| -> Vec<String> { p.flat.iter().map(|r| r.name.to_string()).collect() };
    assert_eq!(names(&one), names(&two));
}

#[test]
fn the_baseline_is_placed_first() {
    let cs = leak_c(vec![
        cand::<()>("g", "a_first_alphabetically", "()", false),
        cand::<()>("g", "z_the_baseline", "()", true),
        cand::<()>("g", "m_middle", "()", false),
    ]);
    let (plan, problems) = plan(&[], &cs, &[]);
    assert!(problems.is_empty(), "{problems:?}");
    assert_eq!(plan.lanes.len(), 1);
    let names: Vec<&str> = plan.lanes[0]
        .candidates
        .iter()
        .map(|c| c.name.as_str())
        .collect();
    assert_eq!(
        names,
        ["z_the_baseline", "a_first_alphabetically", "m_middle"],
        "baseline first, then the rest sorted",
    );
}

#[test]
fn duplicate_names_are_rejected_and_name_their_sources() {
    let regs = leak(vec![flat("same"), flat("same"), flat("fine")]);
    let (_, problems) = plan(&regs, &[], &[]);
    assert_eq!(problems.len(), 1);
    match &problems[0] {
        Diagnostic::DuplicateName { name, sources } => {
            assert_eq!(name, "same");
            assert_eq!(sources.len(), 2);
            assert!(sources.iter().all(|s| s.contains("testcrate@1.0.0")));
        }
        other => panic!("wrong diagnostic: {other:?}"),
    }
}

#[test]
fn a_lone_candidate_is_kept_not_rejected() {
    let cs = leak_c(vec![cand::<()>("lonely", "only", "()", true)]);
    let (plan, problems) = plan(&[], &cs, &[]);
    assert!(problems.is_empty(), "{problems:?}");
    assert_eq!(plan.lanes.len(), 1);
    assert_eq!(plan.lanes[0].candidates.len(), 1);
}

#[test]
fn an_unmarked_group_takes_the_first_name_as_baseline() {
    let cs = leak_c(vec![
        cand::<()>("g", "b", "()", false),
        cand::<()>("g", "a", "()", false),
    ]);
    let (plan, problems) = plan(&[], &cs, &[]);
    assert!(problems.is_empty(), "{problems:?}");
    assert_eq!(plan.lanes[0].candidates[0].name, "a");
}

#[test]
fn a_group_with_two_baselines_is_rejected() {
    let cs = leak_c(vec![
        cand::<()>("g", "a", "()", true),
        cand::<()>("g", "b", "()", true),
    ]);
    let (plan, problems) = plan(&[], &cs, &[]);
    assert!(plan.lanes.is_empty(), "the lane cannot be trusted");
    match &problems[0] {
        Diagnostic::ManyBaselines { group, claimants } => {
            assert_eq!(group, "g");
            assert_eq!(claimants.len(), 2);
        }
        other => panic!("wrong diagnostic: {other:?}"),
    }
}

#[test]
fn candidates_expecting_different_input_types_auto_split() {
    let cs = leak_c(vec![
        cand::<Vec<i32>>("g", "right", "Vec<i32>", true),
        cand::<String>("g", "wrong", "String", false),
    ]);
    let is = leak_i(vec![inp::<Vec<i32>>("g", "data", "Vec<i32>")]);
    let (plan, problems) = plan(&[], &cs, &is);
    assert_eq!(plan.lanes.len(), 1, "only the matching type forms a lane");
    assert_eq!(plan.lanes[0].candidates[0].name, "right");
    assert!(
        problems
            .iter()
            .any(|p| matches!(p, Diagnostic::OrphanCandidate { name, .. } if name == "wrong")),
        "{problems:?}",
    );
}

#[test]
fn a_group_without_an_input_takes_the_unit_input() {
    let cs = leak_c(vec![
        cand::<()>("g", "a", "()", true),
        cand::<()>("g", "b", "()", false),
    ]);
    let (plan, problems) = plan(&[], &cs, &[]);
    assert!(problems.is_empty(), "{problems:?}");
    assert_eq!(plan.lanes.len(), 1);
    assert_eq!(plan.lanes[0].inputs.len(), 1);
    assert_eq!(plan.lanes[0].inputs[0].reg.type_id, id::<()>());
    assert_eq!(
        plan.lanes[0].comparison_name(&plan.lanes[0].inputs[0]),
        "g",
        "a no-input group keeps its plain name",
    );
}

#[test]
fn every_problem_is_reported_not_just_the_first() {
    let regs = leak(vec![flat("dup"), flat("dup")]);
    let cs = leak_c(vec![
        cand::<()>("one", "a", "()", true),
        cand::<()>("one", "b", "()", true),
    ]);
    let (_, problems) = plan(&regs, &cs, &[]);
    assert_eq!(problems.len(), 2, "{problems:?}");
    assert!(problems
        .iter()
        .any(|p| matches!(p, Diagnostic::DuplicateName { .. })));
    assert!(problems
        .iter()
        .any(|p| matches!(p, Diagnostic::ManyBaselines { .. })));
}

#[test]
fn groups_come_out_sorted() {
    let cs = leak_c(vec![
        cand::<()>("zebra", "a", "()", true),
        cand::<()>("zebra", "b", "()", false),
        cand::<()>("apple", "c", "()", true),
        cand::<()>("apple", "d", "()", false),
    ]);
    let (plan, _) = plan(&[], &cs, &[]);
    let names: Vec<&str> = plan.lanes.iter().map(|l| l.group).collect();
    assert_eq!(names, ["apple", "zebra"]);
}

#[test]
fn diagnostics_name_what_they_are_about() {
    let cs = leak_c(vec![
        cand::<()>("g", "a", "()", true),
        cand::<()>("g", "b", "()", true),
    ]);
    let (_, problems) = plan(&[], &cs, &[]);
    let shown = problems[0].message();
    assert!(shown.contains('g'), "{shown}");
}

#[test]
fn a_candidate_can_belong_to_more_than_one_group() {
    let quicksort = cand_in::<()>(&["small_sort", "big_sort"], "quicksort", "()", false);
    let insertion = cand::<()>("small_sort", "insertion", "()", true);
    let cs = leak_c(vec![quicksort, insertion]);
    let (plan, problems) = plan(&[], &cs, &[]);
    assert!(problems.is_empty(), "{problems:?}");
    assert_eq!(plan.lanes.len(), 2);

    let small = plan
        .lanes
        .iter()
        .find(|l| l.group == "small_sort")
        .expect("quicksort named this group");
    assert_eq!(
        small.candidates.len(),
        2,
        "quicksort is compared against insertion here",
    );

    let big = plan
        .lanes
        .iter()
        .find(|l| l.group == "big_sort")
        .expect("quicksort named this group too");
    assert_eq!(
        big.candidates.len(),
        1,
        "quicksort has nothing to compare against here",
    );
    assert_eq!(big.candidates[0].name, "quicksort");
}

#[test]
fn an_input_can_feed_more_than_one_group() {
    let shared = inp_in::<Vec<i32>>(&["sort", "dedup"], "sorted_vec", "Vec<i32>");
    let cs = leak_c(vec![
        cand::<Vec<i32>>("sort", "std_sort", "Vec<i32>", true),
        cand::<Vec<i32>>("dedup", "std_dedup", "Vec<i32>", true),
    ]);
    let is = leak_i(vec![shared]);
    let (plan, problems) = plan(&[], &cs, &is);
    assert!(problems.is_empty(), "{problems:?}");
    assert_eq!(plan.lanes.len(), 2);
    for lane in &plan.lanes {
        assert_eq!(lane.inputs.len(), 1);
        assert_eq!(lane.inputs[0].name, "sorted_vec");
        assert_eq!(
            lane.candidates.len(),
            1,
            "sort and dedup share an input, not a comparison",
        );
    }
}

#[test]
fn candidates_and_inputs_pair_up_by_type() {
    let cs = leak_c(vec![
        cand::<Vec<u8>>("m", "b", "Vec<u8>", false),
        cand::<Vec<u8>>("m", "a", "Vec<u8>", true),
    ]);
    let is = leak_i(vec![
        inp::<Vec<u8>>("m", "big", "Vec<u8>"),
        inp::<Vec<u8>>("m", "small", "Vec<u8>"),
    ]);
    let (lanes, problems) = lanes(&cs, &is);
    assert!(problems.is_empty(), "{problems:?}");
    assert_eq!(lanes.len(), 1);
    assert_eq!(lanes[0].candidates.len(), 2);
    assert_eq!(lanes[0].inputs.len(), 2);
    assert_eq!(
        lanes[0]
            .candidates
            .iter()
            .map(|c| c.name.as_str())
            .collect::<Vec<_>>(),
        ["a", "b"],
    );
    assert_eq!(
        lanes[0]
            .inputs
            .iter()
            .map(|i| i.name.as_str())
            .collect::<Vec<_>>(),
        ["big", "small"],
    );
}

#[test]
fn a_matrix_of_two_types_becomes_two_lanes() {
    let cs = leak_c(vec![
        cand::<Vec<u8>>("m", "bytes_a", "Vec<u8>", true),
        cand::<Vec<u8>>("m", "bytes_b", "Vec<u8>", false),
        cand::<String>("m", "text_a", "String", true),
        cand::<String>("m", "text_b", "String", false),
    ]);
    let is = leak_i(vec![
        inp::<Vec<u8>>("m", "buf", "Vec<u8>"),
        inp::<String>("m", "words", "String"),
    ]);
    let (lanes, problems) = lanes(&cs, &is);
    assert!(problems.is_empty(), "{problems:?}");
    assert_eq!(lanes.len(), 2);
    for lane in &lanes {
        let ty = lane.ty_name;
        assert!(
            lane.candidates.iter().all(|c| c.reg.input_type_name == ty),
            "a lane holds one type only",
        );
        assert!(lane.inputs.iter().all(|i| i.reg.ty_name == ty));
    }
}

#[test]
fn two_lanes_sharing_an_input_name_are_told_apart() {
    let cs = leak_c(vec![
        cand::<Vec<u8>>("m", "bytes_a", "Vec<u8>", true),
        cand::<Vec<u8>>("m", "bytes_b", "Vec<u8>", false),
        cand::<String>("m", "text_a", "String", true),
        cand::<String>("m", "text_b", "String", false),
        cand::<u8>("m", "byte_a", "u8", true),
        cand::<u8>("m", "byte_b", "u8", false),
    ]);
    let is = leak_i(vec![
        inp::<Vec<u8>>("m", "small", "Vec<u8>"),
        inp::<String>("m", "small", "String"),
        inp::<u8>("m", "one", "u8"),
    ]);
    let (lanes, problems) = lanes(&cs, &is);
    assert!(problems.is_empty(), "{problems:?}");
    assert_eq!(lanes.len(), 3);

    let names: Vec<String> = lanes
        .iter()
        .flat_map(|lane| lane.inputs.iter().map(|i| lane.comparison_name(i)))
        .collect();
    let mut unique = names.clone();
    unique.sort();
    unique.dedup();
    assert_eq!(
        names.len(),
        unique.len(),
        "every cell name must be unique: {names:?}",
    );
    assert!(names.iter().any(|n| n == "m@small (Vec<u8>)"), "{names:?}",);
    assert!(names.iter().any(|n| n == "m@small (String)"), "{names:?}");
    assert!(
        names.iter().any(|n| n == "m@one"),
        "the uncontested lane should not be disambiguated: {names:?}",
    );
}

#[test]
fn an_unmarked_lane_takes_the_first_name_as_baseline() {
    let cs = leak_c(vec![
        cand::<u8>("m", "zulu", "u8", false),
        cand::<u8>("m", "alpha", "u8", false),
    ]);
    let is = leak_i(vec![inp::<u8>("m", "i", "u8")]);
    let (lanes, problems) = lanes(&cs, &is);
    assert!(problems.is_empty(), "{problems:?}");
    assert_eq!(lanes[0].candidates[0].name.as_str(), "alpha");
}

#[test]
fn adding_an_earlier_name_moves_an_unmarked_baseline() {
    let is = leak_i(vec![inp::<u8>("m", "i", "u8")]);
    let before = leak_c(vec![
        cand::<u8>("m", "bravo", "u8", false),
        cand::<u8>("m", "charlie", "u8", false),
    ]);
    assert_eq!(lanes(&before, &is).0[0].candidates[0].name, "bravo");

    let after = leak_c(vec![
        cand::<u8>("m", "bravo", "u8", false),
        cand::<u8>("m", "charlie", "u8", false),
        cand::<u8>("m", "alpha", "u8", false),
    ]);
    assert_eq!(
        lanes(&after, &is).0[0].candidates[0].name,
        "alpha",
        "an unmarked baseline is whichever name sorts first, so adding one \
         ahead of it re-bases every reported difference",
    );
}

#[test]
fn a_marked_baseline_beats_the_alphabet() {
    let cs = leak_c(vec![
        cand::<u8>("m", "alpha", "u8", false),
        cand::<u8>("m", "zulu", "u8", true),
    ]);
    let is = leak_i(vec![inp::<u8>("m", "i", "u8")]);
    assert_eq!(lanes(&cs, &is).0[0].candidates[0].name, "zulu");
}

#[test]
fn two_marked_baselines_are_rejected() {
    let cs = leak_c(vec![
        cand::<u8>("m", "a", "u8", true),
        cand::<u8>("m", "b", "u8", true),
    ]);
    let is = leak_i(vec![inp::<u8>("m", "i", "u8")]);
    let (lanes, problems) = lanes(&cs, &is);
    assert!(lanes.is_empty(), "the lane is skipped");
    assert!(
        matches!(&problems[0], Diagnostic::ManyBaselines { .. }),
        "{problems:?}",
    );
}

#[test]
fn a_candidate_with_no_matching_input_warns() {
    let cs = leak_c(vec![cand::<String>("m", "lonely", "String", true)]);
    let is = leak_i(vec![inp::<u8>("m", "i", "u8")]);
    let (lanes, problems) = lanes(&cs, &is);
    assert!(lanes.is_empty());
    assert!(
        problems
            .iter()
            .any(|p| matches!(p, Diagnostic::OrphanCandidate { name, .. } if name == "lonely")),
        "{problems:?}",
    );
    assert!(
        problems
            .iter()
            .any(|p| matches!(p, Diagnostic::OrphanInput { name, .. } if name == "i")),
        "{problems:?}",
    );
}

#[test]
fn a_lane_with_one_candidate_is_kept_for_plain_measurement() {
    let cs = leak_c(vec![cand::<u8>("m", "only", "u8", false)]);
    let is = leak_i(vec![inp::<u8>("m", "i", "u8")]);
    let (lanes, problems) = lanes(&cs, &is);
    assert!(problems.is_empty(), "{problems:?}");
    assert_eq!(lanes.len(), 1);
    assert_eq!(lanes[0].candidates.len(), 1);
    assert_eq!(
        lanes[0].flat_name(&lanes[0].candidates[0], &lanes[0].inputs[0]),
        "m::only@i"
    );
}

#[test]
fn duplicate_names_within_a_matrix_are_rejected() {
    let cs = leak_c(vec![
        cand::<u8>("m", "same", "u8", true),
        cand::<u8>("m", "same", "u8", false),
    ]);
    let is = leak_i(vec![inp::<u8>("m", "i", "u8")]);
    let (_, problems) = lanes(&cs, &is);
    assert!(
        problems.iter().any(|p| matches!(
            p,
            Diagnostic::DuplicateMatrixEntry { what, name, .. }
                if *what == "candidate" && name == "same"
        )),
        "{problems:?}",
    );
}

#[test]
fn a_name_collision_between_two_real_types_is_caught() {
    let cs = leak_c(vec![
        cand::<u8>("m", "a", "Thing", true),
        cand::<u16>("m", "b", "Thing", false),
    ]);
    let is = leak_i(vec![inp::<u8>("m", "i", "Thing")]);
    let (lanes, problems) = lanes(&cs, &is);
    assert!(lanes.is_empty(), "the lane cannot be trusted");
    assert!(
        problems.iter().any(
            |p| matches!(p, Diagnostic::MatrixTypeMismatch { candidate, .. } if candidate == "b")
        ),
        "{problems:?}",
    );
}

#[test]
fn lanes_come_out_sorted() {
    let cs = leak_c(vec![
        cand::<u8>("zebra", "a", "u8", true),
        cand::<u8>("zebra", "b", "u8", false),
        cand::<u8>("apple", "a", "u8", true),
        cand::<u8>("apple", "b", "u8", false),
    ]);
    let is = leak_i(vec![
        inp::<u8>("zebra", "i", "u8"),
        inp::<u8>("apple", "i", "u8"),
    ]);
    let (lanes, _) = lanes(&cs, &is);
    assert_eq!(
        lanes.iter().map(|l| l.group).collect::<Vec<_>>(),
        ["apple", "zebra"],
    );
}

#[test]
fn versions_order_numerically() {
    assert!(Version::parse("0.10.0") > Version::parse("0.9.0"));
    assert!(
        "0.10.0" < "0.9.0",
        "which is why the string form is unusable"
    );
    assert!(Version::parse("1.0.0") > Version::parse("0.99.99"));
    assert!(Version::parse("1.2.10") > Version::parse("1.2.9"));
}

#[test]
fn suffixes_are_ignored_rather_than_fatal() {
    assert_eq!(Version::parse("1.2.3-rc.1"), Version::parse("1.2.3"));
    assert_eq!(Version::parse("1.2.3+build7"), Version::parse("1.2.3"));
    assert_eq!(Version::parse("not-a-version"), Version::parse("0.0.0"));
    assert_eq!(Version::parse(""), Version::parse("0.0.0"));
}

#[test]
fn two_versions_of_one_name_are_both_kept_and_distinguished() {
    let cs = leak_c(vec![
        cand_from::<u8>("m", "sort", "u8", true, "mycrate", "0.9.0"),
        cand_from::<u8>("m", "sort", "u8", true, "mycrate", "0.8.0"),
    ]);
    let is = leak_i(vec![inp::<u8>("m", "i", "u8")]);
    let (lanes, problems) = lanes(&cs, &is);
    assert!(problems.is_empty(), "{problems:?}");
    let names: Vec<&str> = lanes[0]
        .candidates
        .iter()
        .map(|c| c.name.as_str())
        .collect();
    assert!(names.contains(&"sort@0.8.0"), "{names:?}");
    assert!(names.contains(&"sort@0.9.0"), "{names:?}");
}

#[test]
fn the_older_version_is_the_baseline_by_default() {
    let cs = leak_c(vec![
        cand_from::<u8>("m", "sort", "u8", true, "mycrate", "0.9.0"),
        cand_from::<u8>("m", "sort", "u8", true, "mycrate", "0.8.0"),
    ]);
    let is = leak_i(vec![inp::<u8>("m", "i", "u8")]);
    let (lanes, _) = lanes(&cs, &is);
    assert_eq!(
        lanes[0].candidates[0].name, "sort@0.8.0",
        "the old version is what the new one is compared against",
    );
}

#[test]
fn a_redundant_input_from_an_old_version_is_dropped() {
    let cs = leak_c(vec![
        cand_from::<u8>("m", "a", "u8", true, "mycrate", "0.9.0"),
        cand_from::<u8>("m", "b", "u8", false, "mycrate", "0.9.0"),
    ]);
    let is = leak_i(vec![
        inp_from::<u8>("m", "data", "u8", "mycrate", "0.9.0"),
        inp_from::<u8>("m", "data", "u8", "mycrate", "0.8.0"),
    ]);
    let (lanes, problems) = lanes(&cs, &is);
    assert!(problems.is_empty(), "{problems:?}");
    assert_eq!(lanes[0].inputs.len(), 1, "one input, not one per version");
    assert_eq!(
        lanes[0].inputs[0].origin.crate_version, "0.9.0",
        "and it is the newest, not whichever happened to register first",
    );
}

#[test]
fn a_genuine_duplicate_input_is_reported_not_silently_kept() {
    let cs = leak_c(vec![cand::<u8>("m", "a", "u8", true)]);
    let is = leak_i(vec![
        inp_from::<u8>("m", "data", "u8", "mycrate", "0.9.0"),
        inp_from::<u8>("m", "data", "u8", "mycrate", "0.9.0"),
    ]);
    let (_lanes, problems) = lanes(&cs, &is);
    assert!(
        problems.iter().any(|p| matches!(
            p,
            Diagnostic::DuplicateMatrixEntry { what, name, .. }
                if *what == "input" && name == "data"
        )),
        "{problems:?}",
    );
}

#[test]
fn names_carry_only_what_distinguishes_them() {
    let cs = leak_c(vec![
        cand_from::<u8>("m", "sort", "u8", true, "mine", "2.0.0"),
        cand_from::<u8>("m", "sort", "u8", false, "mine", "1.0.0"),
        cand_from::<u8>("m", "sort", "u8", false, "theirs", "0.3.0"),
    ]);
    let is = leak_i(vec![inp::<u8>("m", "i", "u8")]);
    let (lanes, _) = lanes(&cs, &is);
    let names: Vec<&str> = lanes[0]
        .candidates
        .iter()
        .map(|c| c.name.as_str())
        .collect();
    assert!(names.contains(&"sort@mine-2.0.0"), "{names:?}");
    assert!(names.contains(&"sort@mine-1.0.0"), "{names:?}");
    assert!(names.contains(&"sort@theirs-0.3.0"), "{names:?}");
}

#[test]
fn two_functions_claiming_baseline_in_one_version_is_still_an_error() {
    let cs = leak_c(vec![
        cand_from::<u8>("m", "a", "u8", true, "mycrate", "1.0.0"),
        cand_from::<u8>("m", "b", "u8", true, "mycrate", "1.0.0"),
    ]);
    let is = leak_i(vec![inp::<u8>("m", "i", "u8")]);
    let (lanes, problems) = lanes(&cs, &is);
    assert!(lanes.is_empty(), "the lane cannot be trusted");
    assert!(
        matches!(&problems[0], Diagnostic::ManyBaselines { .. }),
        "{problems:?}",
    );
}

#[test]
fn the_same_name_in_two_matrices_stays_two_things() {
    let cs = leak_c(vec![
        cand::<u8>("apple", "sort", "u8", true),
        cand::<u8>("apple", "other", "u8", false),
        cand::<u8>("zebra", "sort", "u8", true),
        cand::<u8>("zebra", "other", "u8", false),
    ]);
    let is = leak_i(vec![
        inp::<u8>("apple", "i", "u8"),
        inp::<u8>("zebra", "i", "u8"),
    ]);
    let (lanes, problems) = lanes(&cs, &is);
    assert!(problems.is_empty(), "{problems:?}");
    assert_eq!(lanes.len(), 2, "both matrices survive");
    for lane in &lanes {
        let names: Vec<&str> = lane.candidates.iter().map(|c| c.name.as_str()).collect();
        assert!(
            names.contains(&"sort"),
            "unrenamed in {}: {names:?}",
            lane.group
        );
    }
}

#[test]
fn survivors_come_back_in_the_order_they_came_in() {
    let keys = |rs: &[&'static Registered]| -> Vec<(Key, Origin)> {
        rs.iter()
            .map(|r| {
                (
                    Key { scope: "", ty_name: "", name: r.name },
                    Origin { crate_name: r.crate_name, crate_version: r.crate_version },
                )
            })
            .collect()
    };
    let rs = leak(vec![flat("zebra"), flat("apple")]);
    let named = resolve_versions(&rs, &keys(&rs), false);
    let names: Vec<&str> = named.iter().map(|n| n.name.as_str()).collect();
    assert_eq!(names, ["zebra", "apple"]);

    let rs = leak(vec![
        flat_at("zebra", "0.8.0"),
        flat_at("apple", "0.8.0"),
        flat_at("zebra", "0.9.0"),
    ]);
    let named = resolve_versions(&rs, &keys(&rs), true);
    let names: Vec<&str> = named.iter().map(|n| n.name.as_str()).collect();
    assert_eq!(names, ["apple", "zebra"], "the older zebra is dropped");

    let (plan, _) = plan(&leak(vec![flat("zebra"), flat("apple")]), &[], &[]);
    let flat: Vec<&str> = plan.flat.iter().map(|n| n.name.as_str()).collect();
    assert_eq!(flat, ["apple", "zebra"], "a plan is sorted");
}

#[test]
fn the_oldest_of_those_listed_is_the_baseline() {
    let named: Vec<Named<Candidate>> = ["0.9.0", "0.8.0", "0.8.0", "0.7.0"]
        .iter()
        .map(|v| Named {
            name: "sort".to_string(),
            reg: leak_c(vec![cand_from::<u8>("g", "sort", "u8", false, "mycrate", v)])[0],
            origin: Origin { crate_name: "mycrate", crate_version: v },
        })
        .collect();
    assert_eq!(oldest_claimant(&named, &vec![0, 1, 2]), 1, "the first listed wins a tie");
    assert_eq!(oldest_claimant(&named, &vec![2, 0, 1]), 2, "whatever its position");
    assert_eq!(oldest_claimant(&named, &vec![0, 3, 1]), 3);
    assert_eq!(oldest_claimant(&named, &vec![0]), 0);
}

#[test]
fn generic_instantiations_survive_latest_per_crate() {
    let cs = leak_c(vec![
        cand::<String>("m", "byte_sum", "String", true),
        cand::<Vec<u8>>("m", "byte_sum", "Vec<u8>", true),
    ]);
    let named = resolve_versions(&cs, &keys_of(&cs, "m"), true);
    assert_eq!(named.len(), 2, "both instantiations must survive");
}

#[test]
fn generic_instantiations_keep_their_plain_names() {
    let cs = leak_c(vec![
        cand::<String>("m", "byte_sum", "String", true),
        cand::<Vec<u8>>("m", "byte_sum", "Vec<u8>", true),
    ]);
    let is = leak_i(vec![
        inp::<String>("m", "text", "String"),
        inp::<Vec<u8>>("m", "bytes", "Vec<u8>"),
    ]);
    let (lanes, _) = lanes(&cs, &is);
    for lane in &lanes {
        assert_eq!(
            lane.candidates[0].name, "byte_sum",
            "nothing needed distinguishing, so nothing should be appended",
        );
    }
}

#[test]
fn same_input_name_in_two_lanes_is_two_inputs() {
    let cs = leak_c(vec![
        cand::<String>("m", "text_a", "String", true),
        cand::<String>("m", "text_b", "String", false),
        cand::<Vec<u8>>("m", "bytes_a", "Vec<u8>", true),
        cand::<Vec<u8>>("m", "bytes_b", "Vec<u8>", false),
    ]);
    let is = leak_i(vec![
        inp::<String>("m", "small", "String"),
        inp::<Vec<u8>>("m", "small", "Vec<u8>"),
    ]);
    let (lanes, problems) = lanes(&cs, &is);
    assert!(problems.is_empty(), "{problems:?}");
    assert_eq!(lanes.len(), 2, "neither lane may be orphaned");
    for lane in &lanes {
        assert_eq!(lane.inputs.len(), 1);
        assert_eq!(lane.inputs[0].name, "small");
        assert_eq!(lane.candidates.len(), 2);
    }
}

#[test]
fn inputs_are_checked_against_each_other_too() {
    let cs = leak_c(vec![
        cand::<u8>("m", "a", "Thing", true),
        cand::<u8>("m", "b", "Thing", false),
    ]);
    let is = leak_i(vec![
        inp::<u8>("m", "first", "Thing"),
        inp::<u16>("m", "second", "Thing"),
    ]);
    let (lanes, problems) = lanes(&cs, &is);
    assert!(lanes.is_empty(), "the lane cannot be trusted");
    assert!(
        problems.iter().any(
            |p| matches!(p, Diagnostic::MatrixTypeMismatch { candidate, .. }
                              if candidate == "second")
        ),
        "{problems:?}",
    );
}

#[test]
fn a_lane_contradiction_is_fatal_but_an_orphan_is_not() {
    let two_baselines = Diagnostic::ManyBaselines {
        group: "m".into(),
        claimants: vec![],
    };
    assert!(two_baselines.is_fatal());
    let orphan = Diagnostic::OrphanCandidate {
        matrix: "m".into(),
        name: "x".into(),
        ty_name: "u8",
    };
    assert!(
        !orphan.is_fatal(),
        "an unused registration leaves the rest of the run perfectly good",
    );
}

#[test]
fn a_plain_benchmark_can_come_from_two_versions() {
    let regs = leak_r(vec![flat_at("fib", "0.9.0"), flat_at("fib", "0.8.0")]);
    let (plan, problems) = plan(&regs, &[], &[]);
    assert!(
        problems.is_empty(),
        "two versions of one benchmark is not a duplicate: {problems:?}",
    );
    let names: Vec<&str> = plan.flat.iter().map(|r| r.name.as_str()).collect();
    assert!(names.contains(&"fib@0.8.0"), "{names:?}");
    assert!(names.contains(&"fib@0.9.0"), "{names:?}");
}

#[test]
fn a_group_can_span_two_versions() {
    let cs = leak_c(vec![
        cand_from::<()>("g", "sort", "()", true, "mycrate", "0.9.0"),
        cand_from::<()>("g", "sort", "()", true, "mycrate", "0.8.0"),
    ]);
    let (plan, problems) = plan(&[], &cs, &[]);
    assert!(
        problems.is_empty(),
        "a group spanning two versions is the point: {problems:?}",
    );
    assert_eq!(plan.lanes.len(), 1);
    assert_eq!(
        plan.lanes[0].candidates[0].name, "sort@0.8.0",
        "the older version is the baseline by default",
    );
}

#[test]
fn two_members_claiming_baseline_in_one_version_is_still_an_error() {
    let cs = leak_c(vec![
        cand_from::<()>("g", "a", "()", true, "mycrate", "1.0.0"),
        cand_from::<()>("g", "b", "()", true, "mycrate", "1.0.0"),
    ]);
    let (_, problems) = plan(&[], &cs, &[]);
    assert!(
        problems
            .iter()
            .any(|p| matches!(p, Diagnostic::ManyBaselines { .. })),
        "{problems:?}",
    );
}

#[test]
fn latest_per_crate_keeps_the_rival_and_drops_our_old_copy() {
    let cs = leak_c(vec![
        cand_from::<Vec<u64>>("regress", "sort", "Vec<u64>", true, "mycrate", "0.9.0"),
        cand_from::<Vec<u64>>("regress", "sort", "Vec<u64>", true, "mycrate", "0.8.0"),
        cand_from::<Vec<u64>>("regress", "sort", "Vec<u64>", false, "theircrate", "0.1.0"),
    ]);
    let named = resolve_versions(&cs, &keys_of(&cs, "regress"), true);
    let names: Vec<&str> = named.iter().map(|n| n.name.as_str()).collect();
    assert_eq!(names.len(), 2, "one per crate: {names:?}");
    assert!(names.contains(&"sort@mycrate"), "{names:?}");
    assert!(
        names.contains(&"sort@theircrate"),
        "a rival on a lower version number must survive: {names:?}",
    );
    assert!(!names.iter().any(|n| n.contains("0.")), "{names:?}");
}

#[test]
fn each_diagnostic_says_what_it_is_about() {
    let regs = leak(vec![flat("same"), flat("same")]);
    let (_, problems) = plan(&regs, &[], &[]);
    assert_eq!(
        problems[0].message(),
        "two benchmarks are both called `same`: testcrate@1.0.0 (same), testcrate@1.0.0 (same)",
    );

    let cs = leak_c(vec![cand::<u8>("m", "a", "u8", true), cand::<u8>("m", "b", "u8", true)]);
    let is = leak_i(vec![inp::<u8>("m", "i", "u8")]);
    assert_eq!(
        lanes(&cs, &is).1[0].message(),
        "group `m` has more than one baseline: testcrate@1.0.0 (a), testcrate@1.0.0 (b)",
    );

    let cs = leak_c(vec![cand::<String>("m", "lonely", "String", true)]);
    let (_, problems) = lanes(&cs, &is);
    let said: Vec<String> = problems.iter().map(|p| p.message()).collect();
    assert_eq!(
        said,
        [
            "in group `m`, `lonely` takes `String` but no input of that type is registered, so \
             it was measured on nothing",
            "in group `m`, the input `i` produces `u8` but no candidate takes that type, so \
             nothing was measured on it",
        ],
    );
    assert!(problems.iter().all(|p| !p.is_fatal()));

    let cs = leak_c(vec![cand::<u8>("m", "same", "u8", true), cand::<u8>("m", "same", "u8", false)]);
    let (_, problems) = lanes(&cs, &is);
    assert_eq!(problems[0].message(), "group `m` has two candidates called `same`");

    let cs = leak_c(vec![cand::<u8>("m", "a", "T", true), cand::<u16>("m", "b", "T", false)]);
    let is = leak_i(vec![inp::<u8>("m", "i", "T")]);
    let (_, problems) = lanes(&cs, &is);
    assert_eq!(
        problems[0].message(),
        "in group `m`, `b` takes a different `T` from the one the inputs produce - two types of \
         the same name are still two types",
    );
    assert!(problems[0].is_fatal());
}

#[test]
fn every_order_of_arrival_gives_the_same_lanes() {
    let a = cand::<u8>("m", "alpha", "u8", false);
    let b = cand::<u8>("m", "bravo", "u8", true);
    let c = cand::<String>("m", "charlie", "String", false);
    let i = inp::<u8>("m", "one", "u8");
    let j = inp::<String>("m", "two", "String");
    let shape = |cs: Vec<Candidate>, is: Vec<Input>| -> Vec<(String, Vec<String>, Vec<String>)> {
        let (lanes, problems) = lanes(&leak_c(cs), &leak_i(is));
        assert!(problems.is_empty(), "{problems:?}");
        lanes
            .iter()
            .map(|l| {
                (
                    l.ty_name.to_string(),
                    l.candidates.iter().map(|c| c.name.clone()).collect(),
                    l.inputs.iter().map(|i| i.name.clone()).collect(),
                )
            })
            .collect()
    };
    let first = shape(vec![a, b, c], vec![i, j]);
    assert_eq!(first.len(), 2);
    assert_eq!(first[1].1, ["bravo", "alpha"]);
    for cs in [vec![a, c, b], vec![b, a, c], vec![b, c, a], vec![c, a, b], vec![c, b, a]] {
        assert_eq!(first, shape(cs, vec![j, i]));
    }
}

#[test]
fn a_version_reads_its_three_numbers() {
    assert_eq!(Version::parse("1.2"), Version::parse("1.2.0"));
    assert_eq!(Version::parse("1"), Version::parse("1.0.0"));
    assert_ne!(Version::parse("1.2.3"), Version::parse("1.2.4"));
    assert!(Version::parse("2.0.0").is_older_than(&Version::parse("10.0.0")));
    assert!(!Version::parse("1.2.3").is_older_than(&Version::parse("1.2.3+later")));
    let origin = Origin { crate_name: "c", crate_version: "3.1.4-beta" };
    assert_eq!(origin.version(), Version::parse("3.1.4"));
}
