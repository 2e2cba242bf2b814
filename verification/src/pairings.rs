//! That every pairing of an implementation with an input is measured.

use crate::assemble;
use crate::diagnostic::DiagnosticView;
use crate::invariance;
use crate::lane;
use crate::lists;
use crate::plan_laws;
use crate::registry::{CandidateView, InputView, RegisteredView};
use crate::reorder;
use crate::resolve;
use crate::resolve::{KeyView, NamedView};
use crate::suite;
use crate::version;
use crate::version::OriginView;
use vstd::prelude::*;

verus! {

/// An item that names a group is among the items of that group.
proof fn lemma_in_group<V>(
    items: Seq<V>,
    groups: spec_fn(V) -> Seq<Seq<char>>,
    group: Seq<char>,
    i: int,
)
    requires
        0 <= i < items.len(),
        groups(items[i]).contains(group),
    ensures
        lists::gathered(items, |v: V| assemble::copies(v, groups(v), group)).contains(items[i]),
        lists::gathered(items, groups).contains(group),
{
    let f = |v: V| assemble::copies(v, groups(v), group);
    reorder::lemma_gathered_contains(items, f);
    reorder::lemma_gathered_contains(items, groups);
    assemble::lemma_copied(items[i], groups(items[i]), group);
    assert(f(items[i]).contains(items[i]));
    assert(groups(items[i]).contains(group));
}

/// Of what one crate registered under one key, the newest of the first `m` and
/// of registration `p` itself.
proof fn lemma_newest_of_crate(keys: Seq<(KeyView, OriginView)>, p: int, m: int) -> (q: int)
    requires
        0 <= p < keys.len(),
        0 <= m <= keys.len(),
    ensures
        0 <= q < keys.len(),
        keys[q].0 == keys[p].0,
        keys[q].1.crate_name == keys[p].1.crate_name,
        !version::older(keys[q].1.numbers(), keys[p].1.numbers()),
        forall|j: int|
            0 <= j < m && (#[trigger] keys[j]).0 == keys[p].0 && keys[j].1.crate_name
                == keys[p].1.crate_name ==> !version::older(
                keys[q].1.numbers(),
                keys[j].1.numbers(),
            ),
    decreases m,
{
    if m == 0 {
        p
    } else {
        let q = lemma_newest_of_crate(keys, p, m - 1);
        let j = m - 1;
        if keys[j].0 == keys[p].0 && keys[j].1.crate_name == keys[p].1.crate_name
            && version::older(keys[q].1.numbers(), keys[j].1.numbers()) {
            j
        } else {
            q
        }
    }
}

/// Every input that was registered is among those that come out, or a newer
/// one of its kind is.
proof fn lemma_input_comes_out(group: Seq<char>, gi: Seq<InputView>, p: int) -> (x: NamedView<
    InputView,
>)
    requires
        0 <= p < gi.len(),
    ensures
        assemble::named_inputs(group, gi).contains(x),
        x.reg.name == gi[p].name,
        x.reg.ty_name == gi[p].ty_name,
{
    let keys = lane::input_entries(group, gi);
    let q = lemma_newest_of_crate(keys, p, keys.len() as int);
    invariance::lemma_in_key_order(keys, true);
    let keep = |i: int| resolve::survives(keys, true, i);
    assert(keep(q));
    let at = resolve::key_order(keys, true);
    assert(at.contains(q));
    let k = choose|k: int| 0 <= k < at.len() && at[k] == q;
    let out = assemble::named_inputs(group, gi);
    assert(out[k].reg == gi[q]);
    assert(gi[q].name == keys[q].0.name && gi[q].ty_name == keys[q].0.ty_name);
    out[k]
}

/// One of the inputs used stands for every input that was registered.
proof fn lemma_input_is_used(group: Seq<char>, gi: Seq<InputView>, p: int) -> (x: NamedView<
    InputView,
>)
    requires
        0 <= p < gi.len(),
    ensures
        lane::newest_inputs(assemble::named_inputs(group, gi)).contains(x),
        x.reg.name == gi[p].name,
        x.reg.ty_name == gi[p].ty_name,
{
    let ni = assemble::named_inputs(group, gi);
    let x = lemma_input_comes_out(group, gi, p);
    let k = choose|k: int| 0 <= k < ni.len() && ni[k] == x;
    let q = invariance::lemma_newest_exists(ni, k);
    invariance::lemma_newest_inputs(ni);
    assert(lane::is_newest_input(ni, q));
    ni[q]
}

/// Every candidate that was registered comes out.
proof fn lemma_candidate_comes_out(group: Seq<char>, gc: Seq<CandidateView>, p: int) -> (x:
    NamedView<CandidateView>)
    requires
        0 <= p < gc.len(),
    ensures
        assemble::named_candidates(group, gc).contains(x),
        x.reg == gc[p],
{
    let keys = lane::candidate_entries(group, gc);
    let k = invariance::lemma_comes_out(keys, p);
    let out = assemble::named_candidates(group, gc);
    assert(out[k].reg == gc[p]);
    out[k]
}

/// Whether a lane pairs a candidate with an input called `input`.
pub open spec fn pairs_up(
    l: lane::LaneView,
    group: Seq<char>,
    candidate: CandidateView,
    input: Seq<char>,
    a: int,
    b: int,
) -> bool {
    &&& l.group == group
    &&& l.ty_name == candidate.input_type_name
    &&& 0 <= a < l.candidates.len()
    &&& l.candidates[a].reg == candidate
    &&& 0 <= b < l.inputs.len()
    &&& l.inputs[b].reg.name == input
}

/// What becomes of a candidate and an input of one type in one group.
proof fn lemma_paired_in_group(
    group: Seq<char>,
    gc: Seq<CandidateView>,
    gi: Seq<InputView>,
    c: int,
    i: int,
) -> (out: (lane::LaneView, int, int))
    requires
        0 <= c < gc.len(),
        0 <= i < gi.len(),
        gc[c].input_type_name == gi[i].ty_name,
        invariance::nothing_fatal(assemble::group_outcome(group, gc, gi).problems),
    ensures
        assemble::group_outcome(group, gc, gi).lanes.contains(out.0),
        pairs_up(out.0, group, gc[c], gi[i].name, out.1, out.2),
{
    let ty = gi[i].ty_name;
    let nc = assemble::named_candidates(group, gc);
    let best = lane::newest_inputs(assemble::named_inputs(group, gi));
    let x = lemma_candidate_comes_out(group, gc, c);
    let y = lemma_input_is_used(group, gi, i);
    let keep_c = |v: NamedView<CandidateView>| v.reg.input_type_name == ty;
    let keep_i = |v: NamedView<InputView>| v.reg.ty_name == ty;
    let cs = assemble::candidates_of_type(nc, ty);
    let registered = assemble::inputs_of_type(best, ty);
    reorder::lemma_filter_contains(nc, keep_c);
    reorder::lemma_filter_contains(best, keep_i);
    assert(cs.contains(x));
    assert(registered.contains(y));

    let all = assemble::types_named(nc, best);
    let types = assemble::group_types(group, gc, gi);
    assert(all.contains(ty)) by {
        let k = choose|k: int| 0 <= k < nc.len() && nc[k] == x;
        assert(all[k] == ty);
    }
    invariance::lemma_distinct_sorted(all);
    assert(types.contains(ty));
    let t = choose|t: int| 0 <= t < types.len() && types[t] == ty;

    let p = assemble::type_pairing(group, gc, gi, ty);
    let found = |ty: Seq<char>| assemble::type_pairing(group, gc, gi, ty).problems;
    plan_laws::law_nothing_is_dropped_in_silence(group, ty, cs, registered);
    if p.lane is None {
        let d = choose|d: DiagnosticView| #[trigger] p.problems.contains(d) && d.fatal();
        reorder::lemma_gathered_contains(types, found);
        assert(found(types[t]).contains(d));
        let rest = lists::gathered(types, found);
        let k = choose|k: int| 0 <= k < rest.len() && rest[k] == d;
        let problems = assemble::group_outcome(group, gc, gi).problems;
        assert(problems[problems.len() - rest.len() + k] == d);
        assert(problems.contains(d));
    }
    let made = |ty: Seq<char>| assemble::type_pairing(group, gc, gi, ty).lane;
    reorder::lemma_filter_map_contains(types, made);
    assert(made(types[t]) is Some);
    let l = p.lane->0;
    let sorted = lists::sorted_by_name(cs);
    invariance::lemma_sorted_by_name(cs);
    invariance::lemma_sorted_by_name(registered);
    plan_laws::lemma_baseline_first(sorted, lane::baseline_name(sorted));
    assert(l.candidates.contains(x));
    assert(l.inputs.contains(y));
    let a = choose|a: int| 0 <= a < l.candidates.len() && l.candidates[a] == x;
    let b = choose|b: int| 0 <= b < l.inputs.len() && l.inputs[b] == y;
    (l, a, b)
}

/// Every pairing is measured: where a candidate and an input name one group
/// and one type, and nothing fatal is wrong, some lane of that group measures
/// the candidate on an input of that name.
pub proof fn law_every_pairing_is_measured(
    regs: Seq<RegisteredView>,
    cands: Seq<CandidateView>,
    inputs: Seq<InputView>,
    group: Seq<char>,
    c: int,
    i: int,
)
    requires
        0 <= c < cands.len(),
        0 <= i < inputs.len(),
        cands[c].groups.contains(group),
        inputs[i].groups.contains(group),
        cands[c].input_type_name == inputs[i].ty_name,
        invariance::nothing_fatal(assemble::problems_of(regs, cands, inputs)),
    ensures
        exists|l: int, a: int, b: int|
            0 <= l < assemble::plan_of(regs, cands, inputs).lanes.len() && #[trigger] pairs_up(
                assemble::plan_of(regs, cands, inputs).lanes[l],
                group,
                cands[c],
                inputs[i].name,
                a,
                b,
            ),
{
    let gc = assemble::candidates_in(cands, group);
    let gi = assemble::inputs_in(inputs, group);
    lemma_in_group(cands, |v: CandidateView| v.groups, group, c);
    lemma_in_group(inputs, |v: InputView| v.groups, group, i);
    reorder::lemma_gathered_same(
        cands,
        |v: CandidateView| assemble::copies(v, (|v: CandidateView| v.groups)(v), group),
        |v: CandidateView| assemble::copies(v, v.groups, group),
    );
    reorder::lemma_gathered_same(
        inputs,
        |v: InputView| assemble::copies(v, (|v: InputView| v.groups)(v), group),
        |v: InputView| assemble::copies(v, v.groups, group),
    );
    assert(gc.contains(cands[c]));
    assert(gi.contains(inputs[i]));
    let cp = choose|k: int| 0 <= k < gc.len() && gc[k] == cands[c];
    let ip = choose|k: int| 0 <= k < gi.len() && gi[k] == inputs[i];

    let named = assemble::groups_named(cands, inputs);
    let of_cands = lists::gathered(cands, |v: CandidateView| v.groups);
    let at = choose|k: int| 0 <= k < of_cands.len() && of_cands[k] == group;
    assert(named[at] == group);
    assert(named.contains(group));
    invariance::lemma_distinct_sorted(named);
    let groups = lists::distinct_sorted(named);
    assert(groups.contains(group));
    let g = choose|g: int| 0 <= g < groups.len() && groups[g] == group;

    let wrong = |g: Seq<char>| assemble::outcome_of(cands, inputs, g).problems;
    let lanes_of = |g: Seq<char>| assemble::outcome_of(cands, inputs, g).lanes;
    reorder::lemma_gathered_contains(groups, wrong);
    reorder::lemma_gathered_contains(groups, lanes_of);
    assert forall|d: DiagnosticView| #[trigger]
        assemble::group_outcome(group, gc, gi).problems.contains(d) implies !d.fatal() by {
        assert(wrong(groups[g]).contains(d));
        let rest = lists::gathered(groups, wrong);
        let k = choose|k: int| 0 <= k < rest.len() && rest[k] == d;
        let problems = assemble::problems_of(regs, cands, inputs);
        assert(problems[problems.len() - rest.len() + k] == d);
        assert(problems.contains(d));
    }
    let (raw, a, b) = lemma_paired_in_group(group, gc, gi, cp, ip);
    assert(lanes_of(groups[g]).contains(raw));
    let all = assemble::all_lanes(cands, inputs);
    assert(all.contains(raw));
    let l = choose|l: int| 0 <= l < all.len() && all[l] == raw;
    let lanes = assemble::plan_of(regs, cands, inputs).lanes;
    assert(pairs_up(lanes[l], group, cands[c], inputs[i].name, a, b));
}

/// Every pairing is added to the suite: where the registrations check out, one
/// entry measures the candidate on an input of that name, beside every other
/// candidate of its lane.
pub proof fn law_every_pairing_is_added(
    regs: Seq<RegisteredView>,
    cands: Seq<CandidateView>,
    inputs: Seq<InputView>,
    group: Seq<char>,
    c: int,
    i: int,
)
    requires
        0 <= c < cands.len(),
        0 <= i < inputs.len(),
        cands[c].groups.contains(group),
        inputs[i].groups.contains(group),
        cands[c].input_type_name == inputs[i].ty_name,
        suite::assembled(regs, cands, inputs) is Ok,
    ensures
        ({
            let a = suite::assembled(regs, cands, inputs)->Ok_0;
            exists|l: int, x: int, y: int|
                0 <= l < a.lanes.len() && #[trigger] pairs_up(
                    a.lanes[l],
                    group,
                    cands[c],
                    inputs[i].name,
                    x,
                    y,
                ) && a.entries.contains(suite::cell_entry(a.lanes[l], y))
                    && suite::lane_alternatives(a.lanes[l])[x].1 == cands[c].add_alt
        }),
{
    let problems = assemble::problems_of(regs, cands, inputs);
    let grave = |d: DiagnosticView| d.fatal() == true;
    reorder::lemma_filter_contains(problems, grave);
    assert forall|d: DiagnosticView| #[trigger] problems.contains(d) implies !d.fatal() by {
        if d.fatal() {
            assert(grave(d));
            assert(problems.filter(grave).contains(d));
            assert(suite::graver(problems, true).len() > 0);
        }
    }
    law_every_pairing_is_measured(regs, cands, inputs, group, c, i);
    let plan = assemble::plan_of(regs, cands, inputs);
    let (l, x, y) = choose|l: int, x: int, y: int|
        0 <= l < plan.lanes.len() && #[trigger] pairs_up(
            plan.lanes[l],
            group,
            cands[c],
            inputs[i].name,
            x,
            y,
        );
    let cells = |l: lane::LaneView| suite::cells_of(l);
    let e = suite::cell_entry(plan.lanes[l], y);
    assert(suite::cells_of(plan.lanes[l])[y] == e);
    reorder::lemma_gathered_contains(plan.lanes, cells);
    assert(cells(plan.lanes[l]).contains(e));
    let rest = lists::gathered(plan.lanes, cells);
    let k = choose|k: int| 0 <= k < rest.len() && rest[k] == e;
    let entries = suite::entries_of(plan);
    assert(entries[plan.flat.len() + k] == e);
    assert(entries.contains(e));
    let a = suite::assembled(regs, cands, inputs)->Ok_0;
    assert(pairs_up(a.lanes[l], group, cands[c], inputs[i].name, x, y));
}

} // verus!
