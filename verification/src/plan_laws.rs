//! What holds of every plan.

use crate::assemble;
use crate::diagnostic::DiagnosticView;
use crate::invariance;
use crate::lane;
use crate::lane::LaneView;
use crate::lists;
use crate::order;
use crate::registry::{CandidateView, InputView, RegisteredView};
use crate::reorder;
use crate::resolve;
use crate::resolve::NamedView;
use crate::text;
use crate::version;
use vstd::prelude::*;

verus! {

/// Whether lane `a` belongs before lane `b`: by group, then type.
pub open spec fn lane_before(a: LaneView, b: LaneView) -> bool {
    text::text_before(a.group, b.group) || (a.group == b.group && text::text_before(
        a.ty_name,
        b.ty_name,
    ))
}

/// The pairing a lane came from.
proof fn lemma_lane_origin(
    cands: Seq<CandidateView>,
    inputs: Seq<InputView>,
    l: int,
)
    requires
        0 <= l < assemble::all_lanes(cands, inputs).len(),
    ensures
        ({
            let raw = assemble::all_lanes(cands, inputs)[l];
            &&& assemble::groups_named(cands, inputs).contains(raw.group)
            &&& assemble::outcome_of(cands, inputs, raw.group).lanes.contains(raw)
            &&& assemble::type_pairing(
                raw.group,
                assemble::candidates_in(cands, raw.group),
                assemble::inputs_in(inputs, raw.group),
                raw.ty_name,
            ).lane == Some(raw)
        }),
{
    let groups = lists::distinct_sorted(assemble::groups_named(cands, inputs));
    let f = |g: Seq<char>| assemble::outcome_of(cands, inputs, g).lanes;
    let raw = assemble::all_lanes(cands, inputs)[l];
    reorder::lemma_gathered_contains(groups, f);
    assert(lists::gathered(groups, f).contains(raw));
    let i = choose|i: int| 0 <= i < groups.len() && #[trigger] f(groups[i]).contains(raw);
    let group = groups[i];
    invariance::lemma_distinct_sorted(assemble::groups_named(cands, inputs));
    assert(groups.contains(group));
    let (gc, gi) = (assemble::candidates_in(cands, group), assemble::inputs_in(inputs, group));
    lemma_group_lane_origin(group, gc, gi, raw);
}

/// The pairing a lane of one group came from.
proof fn lemma_group_lane_origin(
    group: Seq<char>,
    gc: Seq<CandidateView>,
    gi: Seq<InputView>,
    raw: LaneView,
)
    requires
        assemble::group_outcome(group, gc, gi).lanes.contains(raw),
    ensures
        raw.group == group,
        assemble::type_pairing(group, gc, gi, raw.ty_name).lane == Some(raw),
{
    let types = assemble::group_types(group, gc, gi);
    let made = |ty: Seq<char>| assemble::type_pairing(group, gc, gi, ty).lane;
    reorder::lemma_filter_map_contains(types, made);
    assert(types.filter_map(made).contains(raw));
    let k = choose|k: int| 0 <= k < types.len() && #[trigger] made(types[k]) == Some(raw);
}

/// Lanes come out sorted by group name and then by type name, and no two
/// lanes of a group share a type.
pub proof fn law_lanes_are_sorted(
    regs: Seq<RegisteredView>,
    cands: Seq<CandidateView>,
    inputs: Seq<InputView>,
)
    ensures
        forall|l: int, m: int|
            #![trigger assemble::plan_of(regs, cands, inputs).lanes[l], assemble::plan_of(regs, cands, inputs).lanes[m]]
            0 <= l < m < assemble::plan_of(regs, cands, inputs).lanes.len() ==> lane_before(
                assemble::plan_of(regs, cands, inputs).lanes[l],
                assemble::plan_of(regs, cands, inputs).lanes[m],
            ),
{
    let groups = lists::distinct_sorted(assemble::groups_named(cands, inputs));
    let f = |g: Seq<char>| assemble::outcome_of(cands, inputs, g).lanes;
    let less = |a: LaneView, b: LaneView| lane_before(a, b);
    let text_less = |x: Seq<char>, y: Seq<char>| text::text_before(x, y);
    invariance::lemma_distinct_sorted(assemble::groups_named(cands, inputs));
    assert forall|i: int| 0 <= i < groups.len() implies reorder::strictly_sorted(
        f(#[trigger] groups[i]),
        less,
    ) by {
        let group = groups[i];
        let (gc, gi) = (assemble::candidates_in(cands, group), assemble::inputs_in(inputs, group));
        let types = assemble::group_types(group, gc, gi);
        let made = |ty: Seq<char>| assemble::type_pairing(group, gc, gi, ty).lane;
        invariance::lemma_distinct_sorted(
            assemble::types_named(
                assemble::named_candidates(group, gc),
                lane::newest_inputs(assemble::named_inputs(group, gi)),
            ),
        );
        reorder::lemma_filter_map_sorted(types, made, text_less, less);
    }
    assert forall|i: int, j: int, x: LaneView, y: LaneView|
        0 <= i < j < groups.len() && #[trigger] f(groups[i]).contains(x) && #[trigger] f(
            groups[j],
        ).contains(y) implies less(x, y) by {
        lemma_group_lane_origin(
            groups[i],
            assemble::candidates_in(cands, groups[i]),
            assemble::inputs_in(inputs, groups[i]),
            x,
        );
        lemma_group_lane_origin(
            groups[j],
            assemble::candidates_in(cands, groups[j]),
            assemble::inputs_in(inputs, groups[j]),
            y,
        );
        assert(text_less(groups[i], groups[j]));
    }
    reorder::lemma_gathered_sorted(groups, f, less);
    let raw = assemble::all_lanes(cands, inputs);
    let lanes = assemble::plan_of(regs, cands, inputs).lanes;
    assert forall|l: int, m: int|
        #![trigger lanes[l], lanes[m]]
        0 <= l < m < lanes.len() implies lane_before(lanes[l], lanes[m]) by {
        assert(less(raw[l], raw[m]));
    }
}

/// Whether a name in `flat` never comes after a smaller one.
pub open spec fn sorted_names(flat: Seq<NamedView<RegisteredView>>) -> bool {
    forall|i: int, j: int|
        #![trigger flat[i], flat[j]]
        0 <= i < j < flat.len() ==> !text::text_before(flat[j].name, flat[i].name)
}

/// Standalone benchmarks come out sorted by name, and every one registered
/// comes out exactly once, none dropped for an older or a newer version.
pub proof fn law_flat_is_sorted_and_complete(
    regs: Seq<RegisteredView>,
    cands: Seq<CandidateView>,
    inputs: Seq<InputView>,
)
    ensures
        sorted_names(assemble::plan_of(regs, cands, inputs).flat),
        exists|from: Seq<int>|
            reorder::is_permutation(from, regs.len() as int) && assemble::plan_of(
                regs,
                cands,
                inputs,
            ).flat.len() == regs.len() && forall|k: int|
                0 <= k < regs.len() ==> assemble::plan_of(regs, cands, inputs).flat[k].reg
                    == regs[#[trigger] from[k]],
{
    let keys = assemble::registered_entries(regs);
    let named = assemble::named_registered(regs);
    let flat = assemble::plan_of(regs, cands, inputs).flat;
    let n = regs.len() as int;
    let names = lists::names_of(named);
    let keep = |i: int| true;
    let before = |i: int, j: int| lists::text_then_position(names, i, j);
    let earlier = |i: int, j: int| resolve::keyed_before(keys, false, i, j);
    let survives = |i: int| resolve::survives(keys, false, i);

    invariance::lemma_in_key_order(keys, false);
    resolve::lemma_keyed_before(keys, false);
    let first = order::lemma_arrangement_exists(n, n, survives, earlier);
    order::lemma_arrangement_unique(first, n, survives, earlier);
    let at = resolve::key_order(keys, false);
    assert(at.len() == n);

    lists::lemma_text_then_position(names);
    order::lemma_arrangement(n, keep, before);
    order::lemma_arrangement_len(n, before);
    let sorted = lists::name_order(names);

    let from = Seq::new(n as nat, |k: int| at[sorted[k]]);
    assert forall|j: int, k: int|
        #![trigger from[j], from[k]]
        0 <= j < n && 0 <= k < n && j != k implies from[j] != from[k] by {
        assert(!before(sorted[j], sorted[j]) && !before(sorted[k], sorted[k]));
        if j < k {
            assert(before(sorted[j], sorted[k]));
        } else {
            assert(before(sorted[k], sorted[j]));
        }
        let (x, y) = (sorted[j], sorted[k]);
        assert(x != y);
        assert(survives(at[x]) && survives(at[y]));
        assert(!earlier(at[x], at[x]) && !earlier(at[y], at[y]));
        if x < y {
            assert(earlier(at[x], at[y]));
        } else {
            assert(earlier(at[y], at[x]));
        }
    }
    assert forall|i: int| 0 <= i < n implies #[trigger] from.contains(i) by {
        assert(survives(i));
        assert(at.contains(i));
        let x = choose|x: int| 0 <= x < at.len() && at[x] == i;
        assert(keep(x));
        assert(sorted.contains(x));
        let k = choose|k: int| 0 <= k < sorted.len() && sorted[k] == x;
        assert(from[k] == i);
    }
    assert forall|k: int| 0 <= k < n implies 0 <= #[trigger] from[k] < n by {
        assert(survives(at[sorted[k]]));
    }
    assert(reorder::is_permutation(from, n));
    assert forall|k: int| 0 <= k < n implies flat[k].reg == regs[#[trigger] from[k]] by {}
    invariance::lemma_text_one_way();
    assert forall|i: int, j: int|
        #![trigger flat[i], flat[j]]
        0 <= i < j < flat.len() implies !text::text_before(flat[j].name, flat[i].name) by {
        assert(before(sorted[i], sorted[j]));
        text::lemma_text_irreflexive(flat[i].name);
    }
}

/// Whether everything in a lane is of the lane's type, in spelling and in
/// fact, and there is something to measure and something to measure it on.
pub open spec fn one_type(l: LaneView) -> bool {
    &&& l.candidates.len() > 0
    &&& l.inputs.len() > 0
    &&& forall|c: int|
        0 <= c < l.candidates.len() ==> (#[trigger] l.candidates[c]).reg.input_type_name
            == l.ty_name && l.candidates[c].reg.input_type == l.inputs[0].reg.type_id
    &&& forall|i: int|
        0 <= i < l.inputs.len() ==> (#[trigger] l.inputs[i]).reg.ty_name == l.ty_name
            && l.inputs[i].reg.type_id == l.inputs[0].reg.type_id
}

/// A candidate is only ever handed an input of the type it takes: in every
/// lane of a plan, everything agrees about the type.
pub proof fn law_lanes_hold_one_type(
    regs: Seq<RegisteredView>,
    cands: Seq<CandidateView>,
    inputs: Seq<InputView>,
    l: int,
)
    requires
        0 <= l < assemble::plan_of(regs, cands, inputs).lanes.len(),
    ensures
        one_type(assemble::plan_of(regs, cands, inputs).lanes[l]),
{
    lemma_lane_origin(cands, inputs, l);
    let raw = assemble::all_lanes(cands, inputs)[l];
    let (group, ty) = (raw.group, raw.ty_name);
    let nc = assemble::named_candidates(group, assemble::candidates_in(cands, group));
    let best = lane::newest_inputs(
        assemble::named_inputs(group, assemble::inputs_in(inputs, group)),
    );
    let cs = assemble::candidates_of_type(nc, ty);
    let registered = assemble::inputs_of_type(best, ty);
    let used = lane::inputs_or_unit(ty, registered);
    let keep_c = |c: NamedView<CandidateView>| c.reg.input_type_name == ty;
    let keep_i = |i: NamedView<InputView>| i.reg.ty_name == ty;
    reorder::lemma_filter_contains(nc, keep_c);
    reorder::lemma_filter_contains(best, keep_i);
    invariance::lemma_mismatches(group, used, cs);
    invariance::lemma_sorted_by_name(cs);
    invariance::lemma_sorted_by_name(used);
    let sorted = lists::sorted_by_name(cs);
    lemma_baseline_first(sorted, lane::baseline_name(sorted));
    assert(cs.contains(cs[0]));
    assert(sorted.contains(cs[0]));
    assert(used.contains(used[0]));
    assert(raw.inputs.contains(used[0]));
    assert(raw.candidates.contains(cs[0]));
    let want = used[0].reg.type_id;
    assert forall|c: int| 0 <= c < raw.candidates.len() implies (
    #[trigger] raw.candidates[c]).reg.input_type_name == ty && raw.candidates[c].reg.input_type
        == want by {
        assert(raw.candidates.contains(raw.candidates[c]));
        assert(sorted.contains(raw.candidates[c]));
        assert(cs.contains(raw.candidates[c]));
    }
    assert forall|i: int| 0 <= i < raw.inputs.len() implies (
    #[trigger] raw.inputs[i]).reg.ty_name == ty && raw.inputs[i].reg.type_id == want by {
        assert(raw.inputs.contains(raw.inputs[i]));
        assert(used.contains(raw.inputs[i]));
        if registered.len() > 0 {
            assert(registered.contains(raw.inputs[i]));
        }
    }
}

/// Putting the baseline first keeps every item, and puts what is called
/// `baseline` before everything else.
pub proof fn lemma_baseline_first<V>(s: Seq<NamedView<V>>, baseline: Seq<char>)
    ensures
        forall|x: NamedView<V>| lists::baseline_first(s, baseline).contains(x) <==> s.contains(x),
        forall|i: int, j: int|
            #![trigger lists::baseline_first(s, baseline)[i], lists::baseline_first(s, baseline)[j]]
            0 <= i < j < lists::baseline_first(s, baseline).len() ==> {
                let out = lists::baseline_first(s, baseline);
                &&& out[j].name == baseline ==> out[i].name == baseline
                &&& out[i].name != baseline ==> !text::text_before(out[j].name, out[i].name)
            },
{
    let names = lists::names_of(s);
    let n = s.len() as int;
    let keep = |i: int| true;
    let before = |i: int, j: int| lists::baseline_then_name(names, baseline, i, j);
    lists::lemma_baseline_then_name(names, baseline);
    order::lemma_arrangement(n, keep, before);
    let at = order::arrangement(n, keep, before);
    let out = lists::baseline_first(s, baseline);
    assert(out =~= lists::picked(s, at)) by {
        assert(lists::names_of(s) == names);
    }
    assert forall|x: NamedView<V>| out.contains(x) <==> s.contains(x) by {
        if out.contains(x) {
            let k = choose|k: int| 0 <= k < out.len() && out[k] == x;
            assert(s[at[k]] == x);
        }
        if s.contains(x) {
            let i = choose|i: int| 0 <= i < s.len() && s[i] == x;
            assert(keep(i));
            assert(at.contains(i));
            let k = choose|k: int| 0 <= k < at.len() && at[k] == i;
            assert(out[k] == x);
        }
    }
    invariance::lemma_text_one_way();
    assert forall|i: int, j: int|
        #![trigger out[i], out[j]]
        0 <= i < j < out.len() implies {
        &&& out[j].name == baseline ==> out[i].name == baseline
        &&& out[i].name != baseline ==> !text::text_before(out[j].name, out[i].name)
    } by {
        assert(before(at[i], at[j]));
        text::lemma_text_irreflexive(out[i].name);
    }
}

/// The oldest, first where several are equally old, of the claimants before
/// `m`; below zero where there is none.
proof fn lemma_oldest_before(cs: Seq<NamedView<CandidateView>>, m: int) -> (p: int)
    requires
        0 <= m <= cs.len(),
    ensures
        p < m,
        p < 0 ==> forall|q: int| q < m ==> !#[trigger] lane::claims(cs, q),
        p >= 0 ==> lane::claims(cs, p) && forall|q: int|
            q < m && #[trigger] lane::claims(cs, q) ==> !version::older(
                cs[q].origin.numbers(),
                cs[p].origin.numbers(),
            ) && (q < p ==> version::older(cs[p].origin.numbers(), cs[q].origin.numbers())),
    decreases m,
{
    if m == 0 {
        -1
    } else {
        let p = lemma_oldest_before(cs, m - 1);
        if !lane::claims(cs, m - 1) {
            p
        } else if p < 0 || version::older(cs[m - 1].origin.numbers(), cs[p].origin.numbers()) {
            m - 1
        } else {
            p
        }
    }
}

/// Where some candidate asks to be the baseline, the oldest of them is.
proof fn lemma_oldest_exists(cs: Seq<NamedView<CandidateView>>, any: int) -> (p: int)
    requires
        lane::claims(cs, any),
    ensures
        lane::is_oldest_claimant(cs, p),
        lane::baseline_name(cs) == cs[p].name,
{
    let found = lemma_oldest_before(cs, cs.len() as int);
    assert(lane::is_oldest_claimant(cs, found));
    choose|p: int| lane::is_oldest_claimant(cs, p)
}

/// The baseline is one of the candidates.
proof fn lemma_baseline_at(cs: Seq<NamedView<CandidateView>>) -> (p: int)
    requires
        cs.len() > 0,
    ensures
        0 <= p < cs.len(),
        cs[p].name == lane::baseline_name(cs),
{
    if exists|c: int| lane::claims(cs, c) {
        let c = choose|c: int| lane::claims(cs, c);
        let p = lemma_oldest_exists(cs, c);
        assert(lane::claims(cs, p));
        p
    } else {
        0
    }
}

/// Sorting by name sorts by name.
proof fn lemma_sorted_is_sorted<V>(s: Seq<NamedView<V>>, i: int, j: int)
    requires
        0 <= i <= j < lists::sorted_by_name(s).len(),
    ensures
        !text::text_before(
            lists::sorted_by_name(s)[j].name,
            lists::sorted_by_name(s)[i].name,
        ),
{
    let names = lists::names_of(s);
    let before = |i: int, j: int| lists::text_then_position(names, i, j);
    lists::lemma_text_then_position(names);
    order::lemma_arrangement(s.len() as int, |i: int| true, before);
    let at = lists::name_order(names);
    invariance::lemma_text_one_way();
    text::lemma_text_irreflexive(lists::sorted_by_name(s)[i].name);
    if i < j {
        assert(before(at[i], at[j]));
    }
}

/// Whether the first candidate of a lane is the baseline: one that asks for
/// it and is no newer than any other that asks, the first by name of those
/// equally old, or, where none asks, the first by name. The rest are sorted by
/// name.
pub open spec fn baseline_leads(l: LaneView) -> bool {
    let first = l.candidates[0].name;
    &&& (exists|c: int| lane::claims(l.candidates, c)) ==> exists|c: int| #[trigger]
        lane::claims(l.candidates, c) && l.candidates[c].name == first && forall|d: int| #[trigger]
            lane::claims(l.candidates, d) ==> !version::older(
                l.candidates[d].origin.numbers(),
                l.candidates[c].origin.numbers(),
            ) && (l.candidates[d].origin.numbers() == l.candidates[c].origin.numbers()
                ==> !text::text_before(l.candidates[d].name, first))
    &&& (forall|c: int| !lane::claims(l.candidates, c)) ==> forall|c: int|
        0 <= c < l.candidates.len() ==> !text::text_before(
            (#[trigger] l.candidates[c]).name,
            first,
        )
    &&& forall|c: int, d: int|
        #![trigger l.candidates[c], l.candidates[d]]
        0 <= c < d < l.candidates.len() && l.candidates[c].name != first ==> !text::text_before(
            l.candidates[d].name,
            l.candidates[c].name,
        )
}

/// The baseline leads every lane of a plan.
pub proof fn law_baseline_leads(
    regs: Seq<RegisteredView>,
    cands: Seq<CandidateView>,
    inputs: Seq<InputView>,
    l: int,
)
    requires
        0 <= l < assemble::plan_of(regs, cands, inputs).lanes.len(),
    ensures
        baseline_leads(assemble::plan_of(regs, cands, inputs).lanes[l]),
{
    lemma_lane_origin(cands, inputs, l);
    law_lanes_hold_one_type(regs, cands, inputs, l);
    let raw = assemble::all_lanes(cands, inputs)[l];
    let (group, ty) = (raw.group, raw.ty_name);
    let nc = assemble::named_candidates(group, assemble::candidates_in(cands, group));
    let cs = assemble::candidates_of_type(nc, ty);
    let sorted = lists::sorted_by_name(cs);
    let baseline = lane::baseline_name(sorted);
    let out = raw.candidates;
    assert(out == lists::baseline_first(sorted, baseline));
    lemma_baseline_first(sorted, baseline);
    invariance::lemma_sorted_by_name(cs);
    assert(sorted.len() > 0) by {
        assert(out.contains(out[0]));
        assert(sorted.contains(out[0]));
    }
    assert(exists|k: int| 0 <= k < out.len() && out[k].name == baseline) by {
        let p = lemma_baseline_at(sorted);
        assert(sorted.contains(sorted[p]));
        assert(out.contains(sorted[p]));
        let k = choose|k: int| 0 <= k < out.len() && out[k] == sorted[p];
        assert(out[k].name == baseline);
    }
    let k = choose|k: int| 0 <= k < out.len() && out[k].name == baseline;
    if k > 0 {
        assert(out[0].name == baseline);
    }
    let first = out[0].name;
    assert(first == baseline);
    if exists|c: int| lane::claims(out, c) {
        let c0 = choose|c: int| lane::claims(out, c);
        assert(out.contains(out[c0]));
        assert(sorted.contains(out[c0]));
        let s0 = choose|s0: int| 0 <= s0 < sorted.len() && sorted[s0] == out[c0];
        assert(lane::claims(sorted, s0));
        let p = lemma_oldest_exists(sorted, s0);
        assert(sorted.contains(sorted[p]));
        assert(out.contains(sorted[p]));
        let c = choose|c: int| 0 <= c < out.len() && out[c] == sorted[p];
        assert(lane::claims(out, c));
        assert(out[c].name == first);
        assert forall|d: int| #[trigger] lane::claims(out, d) implies !version::older(
            out[d].origin.numbers(),
            out[c].origin.numbers(),
        ) && (out[d].origin.numbers() == out[c].origin.numbers() ==> !text::text_before(
            out[d].name,
            first,
        )) by {
            assert(out.contains(out[d]));
            assert(sorted.contains(out[d]));
            let e = choose|e: int| 0 <= e < sorted.len() && sorted[e] == out[d];
            assert(lane::claims(sorted, e));
            if out[d].origin.numbers() == out[c].origin.numbers() {
                assert(e >= p);
                if e == p {
                    text::lemma_text_irreflexive(first);
                } else {
                    lemma_sorted_is_sorted(cs, p, e);
                }
            }
        }
    } else {
        assert forall|c: int| !lane::claims(sorted, c) by {
            if lane::claims(sorted, c) {
                assert(sorted.contains(sorted[c]));
                assert(out.contains(sorted[c]));
                let d = choose|d: int| 0 <= d < out.len() && out[d] == sorted[c];
                assert(lane::claims(out, d));
            }
        }
        assert(baseline == sorted[0].name);
        assert forall|c: int| 0 <= c < out.len() implies !text::text_before(
            (#[trigger] out[c]).name,
            first,
        ) by {
            assert(out.contains(out[c]));
            assert(sorted.contains(out[c]));
            let e = choose|e: int| 0 <= e < sorted.len() && sorted[e] == out[c];
            lemma_sorted_is_sorted(cs, 0, e);
        }
    }
}

/// Two texts between the same head and tail are the same where the wholes
/// are.
proof fn lemma_middle(head: Seq<char>, a: Seq<char>, b: Seq<char>, tail: Seq<char>)
    requires
        head + a + tail == head + b + tail,
    ensures
        a == b,
{
    let (x, y) = (head + a + tail, head + b + tail);
    assert(x.len() == y.len());
    assert(a =~= x.subrange(head.len() as int, head.len() + a.len() as int));
    assert(b =~= y.subrange(head.len() as int, head.len() + b.len() as int));
}

/// Where two lanes of one group both have an input of some name, the cells of
/// those inputs are called differently.
pub proof fn law_namesakes_get_different_cells(
    regs: Seq<RegisteredView>,
    cands: Seq<CandidateView>,
    inputs: Seq<InputView>,
    l: int,
    a: int,
    m: int,
    b: int,
)
    requires
        l != m,
        assemble::input_names_collide(
            assemble::plan_of(regs, cands, inputs).lanes,
            l,
            a,
            m,
            b,
        ),
    ensures
        ({
            let lanes = assemble::plan_of(regs, cands, inputs).lanes;
            lanes[l].cell_name(lanes[l].inputs[a].name) != lanes[m].cell_name(
                lanes[m].inputs[b].name,
            )
        }),
{
    law_lanes_are_sorted(regs, cands, inputs);
    let raw = assemble::all_lanes(cands, inputs);
    let lanes = assemble::plan_of(regs, cands, inputs).lanes;
    assert(assemble::input_names_collide(raw, l, a, m, b));
    assert(assemble::input_names_collide(raw, m, b, l, a));
    assert(lanes[l].needs_type_suffix && lanes[m].needs_type_suffix);
    let (group, name) = (lanes[l].group, lanes[l].inputs[a].name);
    let (t, u) = (lanes[l].ty_name, lanes[m].ty_name);
    text::lemma_text_irreflexive(group);
    text::lemma_text_irreflexive(t);
    if l < m {
        assert(lane_before(lanes[l], lanes[m]));
    } else {
        assert(lane_before(lanes[m], lanes[l]));
    }
    assert(t != u);
    let head = if name.len() == 0 {
        group + " ("@
    } else {
        group + "@"@ + name + " ("@
    };
    if head + t + ")"@ == head + u + ")"@ {
        lemma_middle(head, t, u, ")"@);
    }
}

/// Whether no two inputs of a lane were registered under one name.
pub open spec fn one_input_per_name(l: LaneView) -> bool {
    forall|i: int, j: int|
        #![trigger l.inputs[i], l.inputs[j]]
        0 <= i < l.inputs.len() && 0 <= j < l.inputs.len() && i != j ==> l.inputs[i].reg.name
            != l.inputs[j].reg.name
}

/// Inputs are deduplicated across crates and versions: a lane never holds two
/// that were registered under one name.
pub proof fn law_inputs_are_deduplicated(
    regs: Seq<RegisteredView>,
    cands: Seq<CandidateView>,
    inputs: Seq<InputView>,
    l: int,
)
    requires
        0 <= l < assemble::plan_of(regs, cands, inputs).lanes.len(),
    ensures
        one_input_per_name(assemble::plan_of(regs, cands, inputs).lanes[l]),
{
    lemma_lane_origin(cands, inputs, l);
    let raw = assemble::all_lanes(cands, inputs)[l];
    let (group, ty) = (raw.group, raw.ty_name);
    let ni = assemble::named_inputs(group, assemble::inputs_in(inputs, group));
    let best = lane::newest_inputs(ni);
    let registered = assemble::inputs_of_type(best, ty);
    let used = lane::inputs_or_unit(ty, registered);
    invariance::lemma_newest_inputs(ni);
    let less = invariance::input_less();
    let keep = |i: NamedView<InputView>| i.reg.ty_name == ty;
    let at = reorder::lemma_filter_positions(best, keep);
    assert forall|i: int, j: int|
        #![trigger used[i], used[j]]
        0 <= i < j < used.len() implies used[i].reg.name != used[j].reg.name by {
        assert(used[i] == best[at[i]] && used[j] == best[at[j]]);
        assert(at[i] < at[j]);
        assert(less(best[at[i]], best[at[j]]));
        text::lemma_text_irreflexive(used[i].reg.name);
        text::lemma_text_irreflexive(used[i].reg.ty_name);
    }
    let names = lists::names_of(used);
    let before = |i: int, j: int| lists::text_then_position(names, i, j);
    lists::lemma_text_then_position(names);
    order::lemma_arrangement(used.len() as int, |i: int| true, before);
    let sorted = lists::name_order(names);
    assert forall|i: int, j: int|
        #![trigger raw.inputs[i], raw.inputs[j]]
        0 <= i < raw.inputs.len() && 0 <= j < raw.inputs.len() && i != j implies
        raw.inputs[i].reg.name != raw.inputs[j].reg.name by {
        let (x, y) = (sorted[i], sorted[j]);
        assert(raw.inputs[i] == used[x] && raw.inputs[j] == used[y]);
        assert(!before(x, x) && !before(y, y));
        if i < j {
            assert(before(x, y));
        } else {
            assert(before(y, x));
        }
        if x < y {
            assert(used[x].reg.name != used[y].reg.name);
        } else {
            assert(used[y].reg.name != used[x].reg.name);
        }
    }
}

/// The inputs of every lane are sorted by name.
pub proof fn law_inputs_are_sorted(
    regs: Seq<RegisteredView>,
    cands: Seq<CandidateView>,
    inputs: Seq<InputView>,
    l: int,
    i: int,
    j: int,
)
    requires
        0 <= l < assemble::plan_of(regs, cands, inputs).lanes.len(),
        0 <= i < j < assemble::plan_of(regs, cands, inputs).lanes[l].inputs.len(),
    ensures
        ({
            let all = assemble::plan_of(regs, cands, inputs).lanes[l].inputs;
            !text::text_before(all[j].name, all[i].name)
        }),
{
    lemma_lane_origin(cands, inputs, l);
    let raw = assemble::all_lanes(cands, inputs)[l];
    let (group, ty) = (raw.group, raw.ty_name);
    let best = lane::newest_inputs(
        assemble::named_inputs(group, assemble::inputs_in(inputs, group)),
    );
    let used = lane::inputs_or_unit(ty, assemble::inputs_of_type(best, ty));
    assert(raw.inputs == lists::sorted_by_name(used));
    lemma_sorted_is_sorted(used, i, j);
}

/// Nothing is dropped in silence: where there is something to measure and
/// something to measure it on but no lane comes of it, a fatal complaint
/// does; and where one of the two is missing, a remark is made about each of
/// the others.
pub proof fn law_nothing_is_dropped_in_silence(
    group: Seq<char>,
    ty: Seq<char>,
    cs: Seq<NamedView<CandidateView>>,
    registered: Seq<NamedView<InputView>>,
)
    ensures
        ({
            let p = lane::pairing(group, ty, cs, registered);
            let used = lane::inputs_or_unit(ty, registered);
            &&& p.lane is None && cs.len() > 0 && used.len() > 0 ==> exists|d: DiagnosticView|
                #[trigger] p.problems.contains(d) && d.fatal()
            &&& used.len() == 0 ==> p.lane is None && p.problems.len() == cs.len()
            &&& cs.len() == 0 ==> p.lane is None && p.problems.len() == used.len()
        }),
{
    let p = lane::pairing(group, ty, cs, registered);
    let used = lane::inputs_or_unit(ty, registered);
    invariance::lemma_mismatches(group, used, cs);
    if p.lane is None && cs.len() > 0 && used.len() > 0 {
        assert(p.problems.contains(p.problems[0]));
        assert(p.problems[0].fatal());
    }
}

/// No two benchmarks that stand alone are reported under one name, unless the
/// plan comes with a fatal complaint.
pub proof fn law_flat_names_are_unique(
    regs: Seq<RegisteredView>,
    cands: Seq<CandidateView>,
    inputs: Seq<InputView>,
    i: int,
    j: int,
)
    requires
        0 <= i < j < assemble::plan_of(regs, cands, inputs).flat.len(),
        invariance::nothing_fatal(assemble::problems_of(regs, cands, inputs)),
    ensures
        assemble::plan_of(regs, cands, inputs).flat[i].name != assemble::plan_of(
            regs,
            cands,
            inputs,
        ).flat[j].name,
{
    let named = assemble::named_registered(regs);
    let names = lists::names_of(named);
    let n = names.len() as int;
    let before = |a: int, b: int| lists::text_then_position(names, a, b);
    lists::lemma_text_then_position(names);
    order::lemma_arrangement(n, |a: int| true, before);
    let at = lists::name_order(names);
    let flat = assemble::plan_of(regs, cands, inputs).flat;
    assert(flat[i] == named[at[i]] && flat[j] == named[at[j]]);
    assert(before(at[i], at[j]));
    assert(!before(at[i], at[i]));
    if flat[i].name == flat[j].name {
        let (x, y) = (at[i], at[j]);
        let p = lemma_first_of_kind(names, x);
        assert(names[p] == names[x] && names[x] == names[y] && x != y);
        assert(lists::repeated(names, p)) by {
            if p == x {
                assert(names[y] == names[p]);
            } else {
                assert(names[x] == names[p]);
            }
        }
        let firsts = lists::distinct_order(names);
        let keep = |a: int| lists::first_of_its_kind(names, a);
        order::lemma_arrangement(n, keep, before);
        assert(keep(p));
        assert(firsts.contains(p));
        let q = choose|q: int| 0 <= q < firsts.len() && firsts[q] == p;
        let complaint = |p: int|
            if lists::repeated(names, p) {
                Some(
                    DiagnosticView::DuplicateName {
                        name: named[p].reg.name,
                        sources: named.filter(
                            |r: NamedView<RegisteredView>| r.name == named[p].name,
                        ).map_values(|r: NamedView<RegisteredView>| assemble::source_of(r.reg)),
                    },
                )
            } else {
                None
            };
        reorder::lemma_filter_map_contains(firsts, complaint);
        let d = complaint(p)->0;
        assert(complaint(firsts[q]) is Some);
        assert(assemble::name_duplicates(named) == firsts.filter_map(complaint));
        let problems = assemble::problems_of(regs, cands, inputs);
        let k = choose|k: int|
            0 <= k < assemble::name_duplicates(named).len() && assemble::name_duplicates(named)[k]
                == d;
        assert(problems[k] == d);
        assert(problems.contains(d) && d.fatal());
    }
}

/// The first position with the text at `x`.
proof fn lemma_first_of_kind(names: Seq<Seq<char>>, x: int) -> (p: int)
    requires
        0 <= x < names.len(),
    ensures
        0 <= p <= x,
        names[p] == names[x],
        lists::first_of_its_kind(names, p),
    decreases x,
{
    if lists::first_of_its_kind(names, x) {
        x
    } else {
        let j = choose|j: int| 0 <= j < x && #[trigger] names[j] == names[x];
        lemma_first_of_kind(names, j)
    }
}

} // verus!
