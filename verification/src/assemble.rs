//! Turning a pile of unordered registrations into a plan for a suite.
//!
//! Everything that can go wrong with a set of registrations is decided here,
//! before any benchmark runs. Running means claiming the machine, which pins
//! threads and blocks until whatever else is benchmarking gives the reserved
//! CPUs back. A mistake reported after that wait has cost real time and says
//! nothing that could not have been said immediately.
//!
//! [`plan`] takes registrations and returns a plan and a list of complaints,
//! touching nothing and measuring nothing.

pub use crate::diagnostic::Diagnostic;
pub use crate::lane::Lane;
pub use crate::resolve::{Key, Named};
pub use crate::version::{Origin, Version};

use crate::diagnostic;
use crate::diagnostic::DiagnosticView;
use crate::lane;
use crate::lane::LaneView;
use crate::lists;
use crate::order;
use crate::registry::{Candidate, CandidateView, Input, InputView, Registered, RegisteredView};
use crate::resolve;
use crate::resolve::{KeyView, NamedView};
use crate::text;
use crate::version::OriginView;
use vstd::prelude::*;

verus! {

/// What to run, in what order, once the registrations check out.
#[derive(Debug)]
pub struct Plan {
    /// Benchmarks that stand alone, sorted by name.
    pub flat: Vec<Named<Registered>>,
    /// Comparison lanes, sorted by group name and then by type name.
    pub lanes: Vec<Lane>,
}

/// The values of a [`Plan`].
#[verifier::ext_equal]
pub struct PlanView {
    pub flat: Seq<NamedView<RegisteredView>>,
    pub lanes: Seq<LaneView>,
}

impl View for Plan {
    type V = PlanView;

    open spec fn view(&self) -> PlanView {
        PlanView {
            flat: resolve::named_views(self.flat@),
            lanes: lane::lane_views(self.lanes@),
        }
    }
}

/// The candidates of one type, as they stand.
pub open spec fn candidates_of_type(nc: Seq<NamedView<CandidateView>>, ty: Seq<char>) -> Seq<
    NamedView<CandidateView>,
> {
    nc.filter(|c: NamedView<CandidateView>| c.reg.input_type_name == ty)
}

/// The inputs of one type, as they stand.
pub open spec fn inputs_of_type(ni: Seq<NamedView<InputView>>, ty: Seq<char>) -> Seq<
    NamedView<InputView>,
> {
    ni.filter(|i: NamedView<InputView>| i.reg.ty_name == ty)
}

/// Every type a candidate takes or an input produces.
pub open spec fn types_named(
    nc: Seq<NamedView<CandidateView>>,
    ni: Seq<NamedView<InputView>>,
) -> Seq<Seq<char>> {
    Seq::new(nc.len(), |i: int| nc[i].reg.input_type_name) + Seq::new(
        ni.len(),
        |i: int| ni[i].reg.ty_name,
    )
}

/// What comes of one group: its lanes, and everything wrong with it.
#[verifier::ext_equal]
pub struct Outcome {
    pub lanes: Seq<LaneView>,
    pub problems: Seq<DiagnosticView>,
}

/// The candidates of a group, sorted by key, each under its reported name.
pub open spec fn named_candidates(group: Seq<char>, cands: Seq<CandidateView>) -> Seq<
    NamedView<CandidateView>,
> {
    resolve::arranged(cands, lane::candidate_entries(group, cands), false)
}

/// The inputs of a group, the newest of each crate, sorted by key, each under
/// its reported name.
pub open spec fn named_inputs(group: Seq<char>, inputs: Seq<InputView>) -> Seq<
    NamedView<InputView>,
> {
    resolve::arranged(inputs, lane::input_entries(group, inputs), true)
}

/// The types of a group, sorted.
pub open spec fn group_types(
    group: Seq<char>,
    cands: Seq<CandidateView>,
    inputs: Seq<InputView>,
) -> Seq<Seq<char>> {
    lists::distinct_sorted(
        types_named(
            named_candidates(group, cands),
            lane::newest_inputs(named_inputs(group, inputs)),
        ),
    )
}

/// What comes of pairing the candidates and inputs of one type in a group.
pub open spec fn type_pairing(
    group: Seq<char>,
    cands: Seq<CandidateView>,
    inputs: Seq<InputView>,
    ty: Seq<char>,
) -> lane::Pairing {
    lane::pairing(
        group,
        ty,
        candidates_of_type(named_candidates(group, cands), ty),
        inputs_of_type(lane::newest_inputs(named_inputs(group, inputs)), ty),
    )
}

/// Partition one group into lanes, by type, and pair them up.
pub open spec fn group_outcome(
    group: Seq<char>,
    cands: Seq<CandidateView>,
    inputs: Seq<InputView>,
) -> Outcome {
    let types = group_types(group, cands, inputs);
    Outcome {
        lanes: types.filter_map(|ty: Seq<char>| type_pairing(group, cands, inputs, ty).lane),
        problems: lane::input_duplicates(group, named_inputs(group, inputs)) + lists::gathered(
            types,
            |ty: Seq<char>|
                lane::candidate_duplicates(
                    group,
                    candidates_of_type(named_candidates(group, cands), ty),
                ),
        ) + lists::gathered(
            types,
            |ty: Seq<char>| type_pairing(group, cands, inputs, ty).problems,
        ),
    }
}

/// What each standalone benchmark is and where it came from.
pub open spec fn registered_entries(regs: Seq<RegisteredView>) -> Seq<(KeyView, OriginView)> {
    Seq::new(
        regs.len(),
        |i: int|
            (
                KeyView { scope: Seq::empty(), ty_name: Seq::empty(), name: regs[i].name },
                OriginView {
                    crate_name: regs[i].crate_name,
                    crate_version: regs[i].crate_version,
                },
            ),
    )
}

/// The standalone benchmarks, sorted by key, each under its reported name.
pub open spec fn named_registered(regs: Seq<RegisteredView>) -> Seq<NamedView<RegisteredView>> {
    resolve::arranged(regs, registered_entries(regs), false)
}

/// Where a standalone benchmark came from, for a reader.
pub open spec fn source_of(r: RegisteredView) -> Seq<char> {
    lane::rendered(
        OriginView { crate_name: r.crate_name, crate_version: r.crate_version },
        r.name,
    )
}

/// A complaint about every name that several standalone benchmarks share.
///
/// It is counted on the reported name, since that is what would collide, and
/// reported under the registered one, which is what the writer typed.
pub open spec fn name_duplicates(named: Seq<NamedView<RegisteredView>>) -> Seq<DiagnosticView> {
    lists::distinct_order(lists::names_of(named)).filter_map(
        |p: int|
            if lists::repeated(lists::names_of(named), p) {
                Some(
                    DiagnosticView::DuplicateName {
                        name: named[p].reg.name,
                        sources: named.filter(
                            |r: NamedView<RegisteredView>| r.name == named[p].name,
                        ).map_values(|r: NamedView<RegisteredView>| source_of(r.reg)),
                    },
                )
            } else {
                None
            },
    )
}

/// Every group that a candidate or an input names.
pub open spec fn groups_named(cands: Seq<CandidateView>, inputs: Seq<InputView>) -> Seq<
    Seq<char>,
> {
    lists::gathered(cands, |c: CandidateView| c.groups) + lists::gathered(
        inputs,
        |i: InputView| i.groups,
    )
}

/// `item`, as often as `groups` names `group`.
pub open spec fn copies<V>(item: V, groups: Seq<Seq<char>>, group: Seq<char>) -> Seq<V> {
    groups.filter(|g: Seq<char>| g == group).map_values(|g: Seq<char>| item)
}

/// An item that names a group is copied into it.
pub proof fn lemma_copied<V>(item: V, groups: Seq<Seq<char>>, group: Seq<char>)
    requires
        groups.contains(group),
    ensures
        copies(item, groups, group).contains(item),
    decreases groups.len(),
{
    reveal(Seq::filter);
    let own = copies(item, groups, group);
    let rest = copies(item, groups.drop_last(), group);
    if groups.last() == group {
        assert(own.last() == item);
    } else {
        let k = choose|k: int| 0 <= k < groups.len() && groups[k] == group;
        assert(groups.drop_last()[k] == group);
        lemma_copied(item, groups.drop_last(), group);
        assert(own =~= rest);
    }
}

/// The candidates that name `group`, each as often as it names it.
pub open spec fn candidates_in(cands: Seq<CandidateView>, group: Seq<char>) -> Seq<CandidateView> {
    lists::gathered(cands, |c: CandidateView| copies(c, c.groups, group))
}

/// The inputs that name `group`, each as often as it names it.
pub open spec fn inputs_in(inputs: Seq<InputView>, group: Seq<char>) -> Seq<InputView> {
    lists::gathered(inputs, |i: InputView| copies(i, i.groups, group))
}

/// What comes of one group among everything registered.
pub open spec fn outcome_of(
    cands: Seq<CandidateView>,
    inputs: Seq<InputView>,
    group: Seq<char>,
) -> Outcome {
    group_outcome(group, candidates_in(cands, group), inputs_in(inputs, group))
}

/// The lanes of every group, before it is known which need their type in
/// their names.
pub open spec fn all_lanes(cands: Seq<CandidateView>, inputs: Seq<InputView>) -> Seq<LaneView> {
    lists::gathered(
        lists::distinct_sorted(groups_named(cands, inputs)),
        |g: Seq<char>| outcome_of(cands, inputs, g).lanes,
    )
}

/// Whether input `a` of lane `l` and input `b` of lane `m` are two inputs of
/// one name in one group.
pub open spec fn input_names_collide(
    lanes: Seq<LaneView>,
    l: int,
    a: int,
    m: int,
    b: int,
) -> bool {
    &&& 0 <= l < lanes.len()
    &&& 0 <= m < lanes.len()
    &&& 0 <= a < lanes[l].inputs.len()
    &&& 0 <= b < lanes[m].inputs.len()
    &&& (l != m || a != b)
    &&& lanes[l].group == lanes[m].group
    &&& lanes[l].inputs[a].name == lanes[m].inputs[b].name
}

/// Whether some input of lane `l` has a namesake in its group.
pub open spec fn shares_an_input_name(lanes: Seq<LaneView>, l: int) -> bool {
    exists|a: int, m: int, b: int| #[trigger] input_names_collide(lanes, l, a, m, b)
}

/// The lanes, each told whether names of its cells have to say the type.
pub open spec fn told_apart(lanes: Seq<LaneView>) -> Seq<LaneView> {
    Seq::new(
        lanes.len(),
        |l: int| LaneView { needs_type_suffix: shares_an_input_name(lanes, l), ..lanes[l] },
    )
}

/// The plan for a set of registrations.
pub open spec fn plan_of(
    regs: Seq<RegisteredView>,
    cands: Seq<CandidateView>,
    inputs: Seq<InputView>,
) -> PlanView {
    PlanView {
        flat: lists::sorted_by_name(named_registered(regs)),
        lanes: told_apart(all_lanes(cands, inputs)),
    }
}

/// Everything wrong with a set of registrations.
pub open spec fn problems_of(
    regs: Seq<RegisteredView>,
    cands: Seq<CandidateView>,
    inputs: Seq<InputView>,
) -> Seq<DiagnosticView> {
    name_duplicates(named_registered(regs)) + lists::gathered(
        lists::distinct_sorted(groups_named(cands, inputs)),
        |g: Seq<char>| outcome_of(cands, inputs, g).problems,
    )
}

/// What each candidate of `group` is and where it came from.
fn enter_candidates(group: &'static str, cands: &[&'static Candidate]) -> (out: Vec<(Key, Origin)>)
    ensures
        resolve::entries(out@) == lane::candidate_entries(group@, resolve::reg_views(cands@)),
{
    let ghost all = lane::candidate_entries(group@, resolve::reg_views(cands@));
    let mut out: Vec<(Key, Origin)> = Vec::new();
    let mut i: usize = 0;
    while i < cands.len()
        invariant
            i <= cands@.len(),
            all == lane::candidate_entries(group@, resolve::reg_views(cands@)),
            resolve::entries(out@) == all.take(i as int),
        decreases cands@.len() - i,
    {
        let c = cands[i];
        let ghost had = resolve::entries(out@);
        out.push(
            (
                Key { scope: group, ty_name: c.input_type_name, name: c.name },
                Origin { crate_name: c.crate_name, crate_version: c.crate_version },
            ),
        );
        assert(resolve::entries(out@) =~= had.push(all[i as int]));
        assert(all.take(i + 1) =~= all.take(i as int).push(all[i as int]));
        i += 1;
    }
    assert(all.take(i as int) =~= all);
    out
}

/// What each input of `group` is and where it came from.
fn enter_inputs(group: &'static str, inputs: &[&'static Input]) -> (out: Vec<(Key, Origin)>)
    ensures
        resolve::entries(out@) == lane::input_entries(group@, resolve::reg_views(inputs@)),
{
    let ghost all = lane::input_entries(group@, resolve::reg_views(inputs@));
    let mut out: Vec<(Key, Origin)> = Vec::new();
    let mut i: usize = 0;
    while i < inputs.len()
        invariant
            i <= inputs@.len(),
            all == lane::input_entries(group@, resolve::reg_views(inputs@)),
            resolve::entries(out@) == all.take(i as int),
        decreases inputs@.len() - i,
    {
        let c = inputs[i];
        let ghost had = resolve::entries(out@);
        out.push(
            (
                Key { scope: group, ty_name: c.ty_name, name: c.name },
                Origin { crate_name: c.crate_name, crate_version: c.crate_version },
            ),
        );
        assert(resolve::entries(out@) =~= had.push(all[i as int]));
        assert(all.take(i + 1) =~= all.take(i as int).push(all[i as int]));
        i += 1;
    }
    assert(all.take(i as int) =~= all);
    out
}

/// What each standalone benchmark is and where it came from.
fn enter_registered(regs: &[&'static Registered]) -> (out: Vec<(Key, Origin)>)
    ensures
        resolve::entries(out@) == registered_entries(resolve::reg_views(regs@)),
{
    let ghost all = registered_entries(resolve::reg_views(regs@));
    let mut out: Vec<(Key, Origin)> = Vec::new();
    let mut i: usize = 0;
    proof {
        reveal_strlit("");
        assert(""@ =~= Seq::<char>::empty());
    }
    while i < regs.len()
        invariant
            i <= regs@.len(),
            ""@ == Seq::<char>::empty(),
            all == registered_entries(resolve::reg_views(regs@)),
            resolve::entries(out@) == all.take(i as int),
        decreases regs@.len() - i,
    {
        let c = regs[i];
        let ghost had = resolve::entries(out@);
        out.push(
            (
                Key { scope: "", ty_name: "", name: c.name },
                Origin { crate_name: c.crate_name, crate_version: c.crate_version },
            ),
        );
        assert(resolve::entries(out@) =~= had.push(all[i as int]));
        assert(all.take(i + 1) =~= all.take(i as int).push(all[i as int]));
        i += 1;
    }
    assert(all.take(i as int) =~= all);
    out
}

/// The candidates of one type, as they stand.
fn select_candidates(nc: &Vec<Named<Candidate>>, ty: &str) -> (out: Vec<Named<Candidate>>)
    ensures
        resolve::named_views(out@) == candidates_of_type(resolve::named_views(nc@), ty@),
{
    let ghost all = resolve::named_views(nc@);
    let ghost keep = |c: NamedView<CandidateView>| c.reg.input_type_name == ty@;
    let mut out: Vec<Named<Candidate>> = Vec::new();
    let mut i: usize = 0;
    proof {
        reveal(Seq::filter);
        assert(all.take(0) =~= Seq::<NamedView<CandidateView>>::empty());
        assert(resolve::named_views(out@) =~= all.take(0).filter(keep));
    }
    while i < nc.len()
        invariant
            i <= nc.len(),
            all == resolve::named_views(nc@),
            keep == (|c: NamedView<CandidateView>| c.reg.input_type_name == ty@),
            resolve::named_views(out@) == all.take(i as int).filter(keep),
        decreases nc.len() - i,
    {
        let ghost had = resolve::named_views(out@);
        proof {
            lists::lemma_filter_step(all, keep, i as int);
        }
        if text::same_text(nc[i].reg.input_type_name, ty) {
            out.push(lists::copy_named(&nc[i]));
            assert(resolve::named_views(out@) =~= had.push(all[i as int]));
        }
        i += 1;
    }
    assert(all.take(i as int) =~= all);
    out
}

/// The inputs of one type, as they stand.
fn select_inputs(ni: &Vec<Named<Input>>, ty: &str) -> (out: Vec<Named<Input>>)
    ensures
        resolve::named_views(out@) == inputs_of_type(resolve::named_views(ni@), ty@),
{
    let ghost all = resolve::named_views(ni@);
    let ghost keep = |c: NamedView<InputView>| c.reg.ty_name == ty@;
    let mut out: Vec<Named<Input>> = Vec::new();
    let mut i: usize = 0;
    proof {
        reveal(Seq::filter);
        assert(all.take(0) =~= Seq::<NamedView<InputView>>::empty());
        assert(resolve::named_views(out@) =~= all.take(0).filter(keep));
    }
    while i < ni.len()
        invariant
            i <= ni.len(),
            all == resolve::named_views(ni@),
            keep == (|c: NamedView<InputView>| c.reg.ty_name == ty@),
            resolve::named_views(out@) == all.take(i as int).filter(keep),
        decreases ni.len() - i,
    {
        let ghost had = resolve::named_views(out@);
        proof {
            lists::lemma_filter_step(all, keep, i as int);
        }
        if text::same_text(ni[i].reg.ty_name, ty) {
            out.push(lists::copy_named(&ni[i]));
            assert(resolve::named_views(out@) =~= had.push(all[i as int]));
        }
        i += 1;
    }
    assert(all.take(i as int) =~= all);
    out
}

/// Every type a candidate takes or an input produces.
fn list_types(nc: &Vec<Named<Candidate>>, ni: &Vec<Named<Input>>) -> (out: Vec<&'static str>)
    ensures
        text::texts(out@) == types_named(resolve::named_views(nc@), resolve::named_views(ni@)),
{
    let ghost all = types_named(resolve::named_views(nc@), resolve::named_views(ni@));
    let mut out: Vec<&'static str> = Vec::new();
    let mut i: usize = 0;
    while i < nc.len()
        invariant
            i <= nc.len(),
            all == types_named(resolve::named_views(nc@), resolve::named_views(ni@)),
            text::texts(out@) == all.take(i as int),
        decreases nc.len() - i,
    {
        let ghost had = text::texts(out@);
        out.push(nc[i].reg.input_type_name);
        assert(text::texts(out@) =~= had.push(all[i as int]));
        assert(all.take(i + 1) =~= all.take(i as int).push(all[i as int]));
        i += 1;
    }
    i = 0;
    while i < ni.len()
        invariant
            i <= ni.len(),
            all == types_named(resolve::named_views(nc@), resolve::named_views(ni@)),
            text::texts(out@) == all.take(nc.len() + i),
        decreases ni.len() - i,
    {
        let ghost had = text::texts(out@);
        let ghost k = nc.len() + i;
        out.push(ni[i].reg.ty_name);
        assert(text::texts(out@) =~= had.push(all[k]));
        assert(all.take(k + 1) =~= all.take(k).push(all[k]));
        i += 1;
    }
    assert(all.take(nc.len() + i) =~= all);
    out
}

/// Add `more` to the end of `problems`.
fn add_problems(problems: &mut Vec<Diagnostic>, more: Vec<Diagnostic>)
    ensures
        diagnostic::diagnostic_views(final(problems)@) == diagnostic::diagnostic_views(
            old(problems)@,
        ) + diagnostic::diagnostic_views(more@),
{
    let ghost added = diagnostic::diagnostic_views(more@);
    let mut rest = more;
    problems.append(&mut rest);
    assert(diagnostic::diagnostic_views(problems@) =~= diagnostic::diagnostic_views(
        old(problems)@,
    ) + added);
}

/// Partition one group's candidates and inputs into lanes and pair them up.
///
/// A candidate whose lane has no inputs, or an input whose lane has no
/// candidates, is reported and skipped. The one exception is a candidate lane
/// with no input at all whose type is `()`: that is a group with nothing to
/// say about its input, and it takes the unit input.
pub fn lanes_for_group(
    group: &'static str,
    candidates: &[&'static Candidate],
    inputs: &[&'static Input],
) -> (out: (Vec<Lane>, Vec<Diagnostic>))
    ensures
        lane::lane_views(out.0@) == group_outcome(
            group@,
            resolve::reg_views(candidates@),
            resolve::reg_views(inputs@),
        ).lanes,
        diagnostic::diagnostic_views(out.1@) == group_outcome(
            group@,
            resolve::reg_views(candidates@),
            resolve::reg_views(inputs@),
        ).problems,
{
    let ghost vc = resolve::reg_views(candidates@);
    let ghost vi = resolve::reg_views(inputs@);
    let candidate_keys = enter_candidates(group, candidates);
    assert(candidate_keys@.len() == resolve::entries(candidate_keys@).len());
    let named_c = resolve::resolve_sorted(candidates, candidate_keys.as_slice(), false);
    let input_keys = enter_inputs(group, inputs);
    assert(input_keys@.len() == resolve::entries(input_keys@).len());
    let named_i = resolve::resolve_sorted(inputs, input_keys.as_slice(), true);
    let best = lane::keep_newest_inputs(&named_i);
    let types = lists::sort_distinct(&list_types(&named_c, &best));
    let ghost t = text::texts(types@);
    let ghost dups = |ty: Seq<char>|
        lane::candidate_duplicates(group@, candidates_of_type(named_candidates(group@, vc), ty));
    let ghost wrong = |ty: Seq<char>| type_pairing(group@, vc, vi, ty).problems;
    let ghost made = |ty: Seq<char>| type_pairing(group@, vc, vi, ty).lane;

    let mut problems = lane::report_input_duplicates(group, &named_i);
    let ghost first = diagnostic::diagnostic_views(problems@);
    let mut k: usize = 0;
    assert(t.take(0) =~= Seq::<Seq<char>>::empty());
    assert(first + lists::gathered(t.take(0), dups) =~= first);
    while k < types.len()
        invariant
            k <= types.len(),
            t == text::texts(types@),
            resolve::named_views(named_c@) == named_candidates(group@, vc),
            dups == (|ty: Seq<char>|
                lane::candidate_duplicates(
                    group@,
                    candidates_of_type(named_candidates(group@, vc), ty),
                )),
            diagnostic::diagnostic_views(problems@) == first + lists::gathered(
                t.take(k as int),
                dups,
            ),
        decreases types.len() - k,
    {
        let cs = select_candidates(&named_c, types[k]);
        add_problems(&mut problems, lane::report_candidate_duplicates(group, &cs));
        proof {
            lists::lemma_gathered_step(t, dups, k as int);
            assert(first + lists::gathered(t.take(k as int), dups) + dups(t[k as int]) =~= first
                + lists::gathered(t.take(k + 1), dups));
        }
        k += 1;
    }
    assert(t.take(k as int) =~= t);
    let ghost second = diagnostic::diagnostic_views(problems@);

    let mut lanes: Vec<Lane> = Vec::new();
    k = 0;
    assert(second + lists::gathered(t.take(0), wrong) =~= second);
    assert(lane::lane_views(lanes@) =~= t.take(0).filter_map(made));
    while k < types.len()
        invariant
            k <= types.len(),
            t == text::texts(types@),
            resolve::named_views(named_c@) == named_candidates(group@, vc),
            resolve::named_views(best@) == lane::newest_inputs(named_inputs(group@, vi)),
            wrong == (|ty: Seq<char>| type_pairing(group@, vc, vi, ty).problems),
            made == (|ty: Seq<char>| type_pairing(group@, vc, vi, ty).lane),
            diagnostic::diagnostic_views(problems@) == second + lists::gathered(
                t.take(k as int),
                wrong,
            ),
            lane::lane_views(lanes@) == t.take(k as int).filter_map(made),
        decreases types.len() - k,
    {
        let cs = select_candidates(&named_c, types[k]);
        let registered = select_inputs(&best, types[k]);
        let ghost had = lane::lane_views(lanes@);
        let (made_lane, why_not) = lane::pair_lane(group, types[k], cs, registered);
        match made_lane {
            Some(l) => {
                lanes.push(l);
                assert(lane::lane_views(lanes@) =~= had.push(l@));
            },
            None => {},
        }
        add_problems(&mut problems, why_not);
        proof {
            lists::lemma_gathered_step(t, wrong, k as int);
            lists::lemma_filter_map_step(t, made, k as int);
            assert(second + lists::gathered(t.take(k as int), wrong) + wrong(t[k as int])
                =~= second + lists::gathered(t.take(k + 1), wrong));
        }
        k += 1;
    }
    assert(t.take(k as int) =~= t);
    (lanes, problems)
}

/// Where a registration came from, for a complaint to name.
pub fn source(r: &Registered) -> (out: String)
    ensures
        out@ == source_of(r@),
{
    lane::render(&Origin { crate_name: r.crate_name, crate_version: r.crate_version }, r.name)
}

/// Where each benchmark called `name` came from.
fn sources_called(named: &Vec<Named<Registered>>, name: &str) -> (out: Vec<String>)
    ensures
        text::strings(out@) == resolve::named_views(named@).filter(
            |r: NamedView<RegisteredView>| r.name == name@,
        ).map_values(|r: NamedView<RegisteredView>| source_of(r.reg)),
{
    let ghost all = resolve::named_views(named@);
    let ghost keep = |r: NamedView<RegisteredView>| r.name == name@;
    let ghost shown = |r: NamedView<RegisteredView>| source_of(r.reg);
    let mut out: Vec<String> = Vec::new();
    let mut i: usize = 0;
    proof {
        reveal(Seq::filter);
        assert(all.take(0) =~= Seq::<NamedView<RegisteredView>>::empty());
        assert(text::strings(out@) =~= all.take(0).filter(keep).map_values(shown));
    }
    while i < named.len()
        invariant
            i <= named.len(),
            all == resolve::named_views(named@),
            keep == (|r: NamedView<RegisteredView>| r.name == name@),
            shown == (|r: NamedView<RegisteredView>| source_of(r.reg)),
            text::strings(out@) == all.take(i as int).filter(keep).map_values(shown),
        decreases named.len() - i,
    {
        let ghost had = text::strings(out@);
        proof {
            lists::lemma_filter_step(all, keep, i as int);
        }
        if text::same_text(named[i].name.as_str(), name) {
            out.push(source(named[i].reg));
            proof {
                assert(text::strings(out@) =~= had.push(shown(all[i as int])));
                assert(all.take(i as int).filter(keep).push(all[i as int]).map_values(shown)
                    =~= all.take(i as int).filter(keep).map_values(shown).push(
                    shown(all[i as int]),
                ));
            }
        }
        i += 1;
    }
    assert(all.take(i as int) =~= all);
    out
}

/// A complaint about every name that several standalone benchmarks share.
fn report_name_duplicates(named: &Vec<Named<Registered>>) -> (out: Vec<Diagnostic>)
    ensures
        diagnostic::diagnostic_views(out@) == name_duplicates(resolve::named_views(named@)),
{
    let ghost v = resolve::named_views(named@);
    let names = lists::borrow_names(named);
    let order = lists::distinct_positions(&names);
    let ghost t = lists::names_of(v);
    let ghost all = lists::distinct_order(t);
    let ghost f = |p: int|
        if lists::repeated(t, p) {
            Some(
                DiagnosticView::DuplicateName {
                    name: v[p].reg.name,
                    sources: v.filter(
                        |r: NamedView<RegisteredView>| r.name == v[p].name,
                    ).map_values(|r: NamedView<RegisteredView>| source_of(r.reg)),
                },
            )
        } else {
            None
        };
    assert(t.len() == named.len());
    let mut out: Vec<Diagnostic> = Vec::new();
    let mut k: usize = 0;
    assert(all.take(0) =~= Seq::<int>::empty());
    while k < order.len()
        invariant
            k <= order.len(),
            v == resolve::named_views(named@),
            t == text::texts(names@),
            t.len() == named.len(),
            all == order::ints(order@),
            f == (|p: int|
                if lists::repeated(t, p) {
                    Some(
                        DiagnosticView::DuplicateName {
                            name: v[p].reg.name,
                            sources: v.filter(
                                |r: NamedView<RegisteredView>| r.name == v[p].name,
                            ).map_values(|r: NamedView<RegisteredView>| source_of(r.reg)),
                        },
                    )
                } else {
                    None
                }),
            forall|a: int| 0 <= a < order@.len() ==> #[trigger] order@[a] < names@.len(),
            diagnostic::diagnostic_views(out@) == all.take(k as int).filter_map(f),
        decreases order.len() - k,
    {
        let ghost had = diagnostic::diagnostic_views(out@);
        assert(all[k as int] == order@[k as int]);
        let p = order[k];
        if lists::is_repeated(&names, p) {
            out.push(
                Diagnostic::DuplicateName {
                    name: named[p].reg.name.to_owned(),
                    sources: sources_called(named, named[p].name.as_str()),
                },
            );
            assert(diagnostic::diagnostic_views(out@) =~= had.push(out@.last()@));
        }
        proof {
            lists::lemma_filter_map_step(all, f, k as int);
        }
        k += 1;
    }
    assert(all.take(k as int) =~= all);
    out
}

/// Add the texts of `more` to the end of `out`.
fn add_texts(out: &mut Vec<&'static str>, more: &[&'static str])
    ensures
        text::texts(final(out)@) == text::texts(old(out)@) + text::texts(more@),
{
    let ghost all = text::texts(more@);
    let mut i: usize = 0;
    assert(text::texts(out@) + all.take(0) =~= text::texts(out@));
    while i < more.len()
        invariant
            i <= more@.len(),
            all == text::texts(more@),
            text::texts(out@) == text::texts(old(out)@) + all.take(i as int),
        decreases more@.len() - i,
    {
        let ghost had = text::texts(out@);
        out.push(more[i]);
        assert(text::texts(out@) =~= had.push(all[i as int]));
        assert(text::texts(old(out)@) + all.take(i + 1) =~= had.push(all[i as int]));
        i += 1;
    }
    assert(all.take(i as int) =~= all);
}

/// Every group that a candidate or an input names.
fn list_groups(candidates: &[&'static Candidate], inputs: &[&'static Input]) -> (out: Vec<
    &'static str,
>)
    ensures
        text::texts(out@) == groups_named(
            resolve::reg_views(candidates@),
            resolve::reg_views(inputs@),
        ),
{
    let ghost vc = resolve::reg_views(candidates@);
    let ghost vi = resolve::reg_views(inputs@);
    let ghost fc = |c: CandidateView| c.groups;
    let ghost fi = |i: InputView| i.groups;
    let mut out: Vec<&'static str> = Vec::new();
    let mut k: usize = 0;
    assert(vc.take(0) =~= Seq::<CandidateView>::empty());
    assert(text::texts(out@) =~= lists::gathered(vc.take(0), fc));
    while k < candidates.len()
        invariant
            k <= candidates@.len(),
            vc == resolve::reg_views(candidates@),
            fc == (|c: CandidateView| c.groups),
            text::texts(out@) == lists::gathered(vc.take(k as int), fc),
        decreases candidates@.len() - k,
    {
        add_texts(&mut out, candidates[k].groups);
        proof {
            lists::lemma_gathered_step(vc, fc, k as int);
        }
        k += 1;
    }
    assert(vc.take(k as int) =~= vc);
    let ghost first = text::texts(out@);
    k = 0;
    assert(vi.take(0) =~= Seq::<InputView>::empty());
    assert(first + lists::gathered(vi.take(0), fi) =~= first);
    while k < inputs.len()
        invariant
            k <= inputs@.len(),
            vi == resolve::reg_views(inputs@),
            fi == (|i: InputView| i.groups),
            text::texts(out@) == first + lists::gathered(vi.take(k as int), fi),
        decreases inputs@.len() - k,
    {
        add_texts(&mut out, inputs[k].groups);
        proof {
            lists::lemma_gathered_step(vi, fi, k as int);
            assert(first + lists::gathered(vi.take(k as int), fi) + fi(vi[k as int]) =~= first
                + lists::gathered(vi.take(k + 1), fi));
        }
        k += 1;
    }
    assert(vi.take(k as int) =~= vi);
    out
}

/// Add `item` to `out` once for each time `groups` names `group`.
fn add_copies<T: View>(
    out: &mut Vec<&'static T>,
    item: &'static T,
    groups: &[&'static str],
    group: &str,
)
    ensures
        resolve::reg_views(final(out)@) == resolve::reg_views(old(out)@) + copies(
            item@,
            text::texts(groups@),
            group@,
        ),
{
    let ghost all = text::texts(groups@);
    let ghost keep = |g: Seq<char>| g == group@;
    let ghost copy = |g: Seq<char>| item@;
    let mut i: usize = 0;
    proof {
        reveal(Seq::filter);
        assert(all.take(0) =~= Seq::<Seq<char>>::empty());
        assert(resolve::reg_views(out@) + all.take(0).filter(keep).map_values(copy)
            =~= resolve::reg_views(out@));
    }
    while i < groups.len()
        invariant
            i <= groups@.len(),
            all == text::texts(groups@),
            keep == (|g: Seq<char>| g == group@),
            copy == (|g: Seq<char>| item@),
            resolve::reg_views(out@) == resolve::reg_views(old(out)@) + all.take(i as int).filter(
                keep,
            ).map_values(copy),
        decreases groups@.len() - i,
    {
        let ghost had = resolve::reg_views(out@);
        let ghost before = all.take(i as int).filter(keep);
        proof {
            lists::lemma_filter_step(all, keep, i as int);
        }
        if text::same_text(groups[i], group) {
            out.push(item);
            proof {
                assert(resolve::reg_views(out@) =~= had.push(item@));
                assert(before.push(all[i as int]).map_values(copy) =~= before.map_values(
                    copy,
                ).push(item@));
                assert(resolve::reg_views(old(out)@) + before.map_values(copy).push(item@)
                    =~= had.push(item@));
            }
        }
        i += 1;
    }
    assert(all.take(i as int) =~= all);
}

/// The candidates that name `group`, each as often as it names it.
fn gather_candidates(candidates: &[&'static Candidate], group: &str) -> (out: Vec<
    &'static Candidate,
>)
    ensures
        resolve::reg_views(out@) == candidates_in(resolve::reg_views(candidates@), group@),
{
    let ghost all = resolve::reg_views(candidates@);
    let ghost f = |c: CandidateView| copies(c, c.groups, group@);
    let mut out: Vec<&'static Candidate> = Vec::new();
    let mut k: usize = 0;
    assert(all.take(0) =~= Seq::<CandidateView>::empty());
    assert(resolve::reg_views(out@) =~= lists::gathered(all.take(0), f));
    while k < candidates.len()
        invariant
            k <= candidates@.len(),
            all == resolve::reg_views(candidates@),
            f == (|c: CandidateView| copies(c, c.groups, group@)),
            resolve::reg_views(out@) == lists::gathered(all.take(k as int), f),
        decreases candidates@.len() - k,
    {
        add_copies(&mut out, candidates[k], candidates[k].groups, group);
        proof {
            lists::lemma_gathered_step(all, f, k as int);
        }
        k += 1;
    }
    assert(all.take(k as int) =~= all);
    out
}

/// The inputs that name `group`, each as often as it names it.
fn gather_inputs(inputs: &[&'static Input], group: &str) -> (out: Vec<&'static Input>)
    ensures
        resolve::reg_views(out@) == inputs_in(resolve::reg_views(inputs@), group@),
{
    let ghost all = resolve::reg_views(inputs@);
    let ghost f = |c: InputView| copies(c, c.groups, group@);
    let mut out: Vec<&'static Input> = Vec::new();
    let mut k: usize = 0;
    assert(all.take(0) =~= Seq::<InputView>::empty());
    assert(resolve::reg_views(out@) =~= lists::gathered(all.take(0), f));
    while k < inputs.len()
        invariant
            k <= inputs@.len(),
            all == resolve::reg_views(inputs@),
            f == (|c: InputView| copies(c, c.groups, group@)),
            resolve::reg_views(out@) == lists::gathered(all.take(k as int), f),
        decreases inputs@.len() - k,
    {
        add_copies(&mut out, inputs[k], inputs[k].groups, group);
        proof {
            lists::lemma_gathered_step(all, f, k as int);
        }
        k += 1;
    }
    assert(all.take(k as int) =~= all);
    out
}

/// Whether some input of lane `l` has a namesake in its group.
fn has_namesake(lanes: &Vec<Lane>, l: usize) -> (found: bool)
    requires
        l < lanes.len(),
    ensures
        found == shares_an_input_name(lane::lane_views(lanes@), l as int),
{
    let ghost v = lane::lane_views(lanes@);
    let mut a: usize = 0;
    while a < lanes[l as usize].inputs.len()
        invariant
            l < lanes.len(),
            a <= lanes@[l as int].inputs.len(),
            v == lane::lane_views(lanes@),
            forall|x: int, m: int, b: int|
                x < a ==> !#[trigger] input_names_collide(v, l as int, x, m, b),
        decreases lanes@[l as int].inputs.len() - a,
    {
        let mut m: usize = 0;
        while m < lanes.len()
            invariant
                l < lanes.len(),
                m <= lanes.len(),
                a < lanes@[l as int].inputs.len(),
                v == lane::lane_views(lanes@),
                forall|y: int, b: int|
                    y < m ==> !#[trigger] input_names_collide(v, l as int, a as int, y, b),
            decreases lanes.len() - m,
        {
            if text::same_text(lanes[l].group, lanes[m].group) {
                let mut b: usize = 0;
                while b < lanes[m].inputs.len()
                    invariant
                        l < lanes.len(),
                        m < lanes.len(),
                        a < lanes@[l as int].inputs.len(),
                        b <= lanes@[m as int].inputs.len(),
                        v == lane::lane_views(lanes@),
                        lanes@[l as int].group@ == lanes@[m as int].group@,
                        forall|z: int|
                            z < b ==> !#[trigger] input_names_collide(
                                v,
                                l as int,
                                a as int,
                                m as int,
                                z,
                            ),
                    decreases lanes@[m as int].inputs.len() - b,
                {
                    if (l != m || a != b) && text::same_text(
                        lanes[l].inputs[a].name.as_str(),
                        lanes[m].inputs[b].name.as_str(),
                    ) {
                        assert(input_names_collide(v, l as int, a as int, m as int, b as int));
                        return true;
                    }
                    b += 1;
                }
            }
            m += 1;
        }
        a += 1;
    }
    false
}

/// Tell each lane whether names of its cells have to say the type.
fn tell_lanes_apart(lanes: &mut Vec<Lane>)
    ensures
        lane::lane_views(final(lanes)@) == told_apart(lane::lane_views(old(lanes)@)),
{
    let ghost v = lane::lane_views(lanes@);
    let mut needs: Vec<bool> = Vec::new();
    let mut l: usize = 0;
    while l < lanes.len()
        invariant
            l <= lanes.len(),
            lanes@ == old(lanes)@,
            v == lane::lane_views(lanes@),
            needs@.len() == l,
            forall|k: int| 0 <= k < l ==> needs@[k] == shares_an_input_name(v, k),
        decreases lanes.len() - l,
    {
        needs.push(has_namesake(lanes, l));
        l += 1;
    }
    l = 0;
    while l < lanes.len()
        invariant
            l <= lanes.len(),
            lanes@.len() == v.len(),
            needs@.len() == v.len(),
            forall|k: int| 0 <= k < v.len() ==> needs@[k] == shares_an_input_name(v, k),
            forall|k: int| 0 <= k < l ==> (#[trigger] lanes@[k])@ == told_apart(v)[k],
            forall|k: int| l <= k < v.len() ==> (#[trigger] lanes@[k])@ == v[k],
        decreases lanes.len() - l,
    {
        lanes[l].needs_type_suffix = needs[l];
        l += 1;
    }
    assert(lane::lane_views(lanes@) =~= told_apart(v));
}

/// Check a set of registrations and decide what to run.
///
/// Returns every complaint it can find rather than the first, so that a
/// caller fixing them does not have to rebuild once per mistake.
///
/// Registrations arrive in whatever order the linker chose, which is not
/// stable and not meaningful. Everything here is therefore sorted by name.
///
/// A candidate or input can name several groups. The first step explodes
/// every candidate and input across each group it names; from that point on,
/// each group is handled independently.
pub fn plan(
    regs: &[&'static Registered],
    candidates: &[&'static Candidate],
    inputs: &[&'static Input],
) -> (out: (Plan, Vec<Diagnostic>))
    ensures
        out.0@ == plan_of(
            resolve::reg_views(regs@),
            resolve::reg_views(candidates@),
            resolve::reg_views(inputs@),
        ),
        diagnostic::diagnostic_views(out.1@) == problems_of(
            resolve::reg_views(regs@),
            resolve::reg_views(candidates@),
            resolve::reg_views(inputs@),
        ),
{
    let ghost vc = resolve::reg_views(candidates@);
    let ghost vi = resolve::reg_views(inputs@);
    let keys = enter_registered(regs);
    assert(keys@.len() == resolve::entries(keys@).len());
    let named = resolve::resolve_sorted(regs, keys.as_slice(), false);
    let mut problems = report_name_duplicates(&named);
    let flat = lists::sort_by_name(&named);

    let groups = lists::sort_distinct(&list_groups(candidates, inputs));
    let ghost t = text::texts(groups@);
    let ghost made = |g: Seq<char>| outcome_of(vc, vi, g).lanes;
    let ghost wrong = |g: Seq<char>| outcome_of(vc, vi, g).problems;
    let ghost first = diagnostic::diagnostic_views(problems@);
    let mut lanes: Vec<Lane> = Vec::new();
    let mut k: usize = 0;
    assert(t.take(0) =~= Seq::<Seq<char>>::empty());
    assert(first + lists::gathered(t.take(0), wrong) =~= first);
    assert(lane::lane_views(lanes@) =~= lists::gathered(t.take(0), made));
    while k < groups.len()
        invariant
            k <= groups.len(),
            t == text::texts(groups@),
            vc == resolve::reg_views(candidates@),
            vi == resolve::reg_views(inputs@),
            made == (|g: Seq<char>| outcome_of(vc, vi, g).lanes),
            wrong == (|g: Seq<char>| outcome_of(vc, vi, g).problems),
            lane::lane_views(lanes@) == lists::gathered(t.take(k as int), made),
            diagnostic::diagnostic_views(problems@) == first + lists::gathered(
                t.take(k as int),
                wrong,
            ),
        decreases groups.len() - k,
    {
        let group = groups[k];
        let group_candidates = gather_candidates(candidates, group);
        let group_inputs = gather_inputs(inputs, group);
        let (group_lanes, group_problems) = lanes_for_group(
            group,
            group_candidates.as_slice(),
            group_inputs.as_slice(),
        );
        let ghost had = lane::lane_views(lanes@);
        let ghost added = lane::lane_views(group_lanes@);
        let mut rest = group_lanes;
        lanes.append(&mut rest);
        assert(lane::lane_views(lanes@) =~= had + added);
        add_problems(&mut problems, group_problems);
        proof {
            lists::lemma_gathered_step(t, made, k as int);
            lists::lemma_gathered_step(t, wrong, k as int);
            assert(first + lists::gathered(t.take(k as int), wrong) + wrong(t[k as int]) =~= first
                + lists::gathered(t.take(k + 1), wrong));
        }
        k += 1;
    }
    assert(t.take(k as int) =~= t);
    tell_lanes_apart(&mut lanes);
    (Plan { flat, lanes }, problems)
}

} // verus!
