//! What becomes of registrations: which are kept, what they are called, which
//! of them lead, and what is said of those that do not fit together.

use crate::assemble;
use crate::diagnostic::DiagnosticView;
use crate::invariance;
use crate::lane;
use crate::lists;
use crate::order;
use crate::plan_laws;
use crate::registry;
use crate::registry::{CandidateView, InputView, RegisteredView};
use crate::reorder;
use crate::resolve;
use crate::resolve::{KeyView, NamedView};
use crate::text;
use crate::version;
use crate::version::OriginView;
use vstd::prelude::*;

verus! {

/// Where candidates of a lane ask to be its baseline, the lane is led by one
/// of them whose version numbers come first, compared by major, then minor,
/// then patch number, and of those equally old by the first by name.
pub proof fn law_the_oldest_claimant_leads(
    regs: Seq<RegisteredView>,
    cands: Seq<CandidateView>,
    inputs: Seq<InputView>,
    l: int,
    asks: int,
) -> (c: int)
    requires
        0 <= l < assemble::plan_of(regs, cands, inputs).lanes.len(),
        0 <= asks < assemble::plan_of(regs, cands, inputs).lanes[l].candidates.len(),
        assemble::plan_of(regs, cands, inputs).lanes[l].candidates[asks].reg.is_baseline,
    ensures
        ({
            let cs = assemble::plan_of(regs, cands, inputs).lanes[l].candidates;
            &&& 0 <= c < cs.len()
            &&& cs[c].reg.is_baseline
            &&& cs[c].name == cs[0].name
            &&& forall|d: int|
                0 <= d < cs.len() && (#[trigger] cs[d]).reg.is_baseline ==> {
                    let a = version::version_of(cs[c].origin.crate_version);
                    let b = version::version_of(cs[d].origin.crate_version);
                    &&& a.0 < b.0 || (a.0 == b.0 && (a.1 < b.1 || (a.1 == b.1 && a.2 <= b.2)))
                    &&& a == b ==> !text::text_before(cs[d].name, cs[0].name)
                }
        }),
{
    plan_laws::law_baseline_leads(regs, cands, inputs, l);
    let cs = assemble::plan_of(regs, cands, inputs).lanes[l].candidates;
    assert(lane::claims(cs, asks));
    let c = choose|c: int| #[trigger]
        lane::claims(cs, c) && cs[c].name == cs[0].name && forall|d: int| #[trigger]
            lane::claims(cs, d) ==> !version::older(cs[d].origin.numbers(), cs[c].origin.numbers())
                && (cs[d].origin.numbers() == cs[c].origin.numbers() ==> !text::text_before(
                cs[d].name,
                cs[0].name,
            ));
    assert forall|d: int| 0 <= d < cs.len() && (#[trigger] cs[d]).reg.is_baseline implies {
        let a = version::version_of(cs[c].origin.crate_version);
        let b = version::version_of(cs[d].origin.crate_version);
        &&& a.0 < b.0 || (a.0 == b.0 && (a.1 < b.1 || (a.1 == b.1 && a.2 <= b.2)))
        &&& a == b ==> !text::text_before(cs[d].name, cs[0].name)
    } by {
        assert(lane::claims(cs, d));
    }
    c
}

/// Of the inputs of one type and name a group keeps one, the first of those
/// than which none has higher version numbers.
pub proof fn law_the_newest_input_is_kept(ni: Seq<NamedView<InputView>>, r: int) -> (k: int)
    requires
        0 <= r < ni.len(),
    ensures
        ({
            let kept = lane::newest_inputs(ni);
            &&& 0 <= k < kept.len()
            &&& kept[k].reg.ty_name == ni[r].reg.ty_name
            &&& kept[k].reg.name == ni[r].reg.name
            &&& exists|q: int|
                0 <= q < ni.len() && #[trigger] ni[q] == kept[k] && (version::version_of(
                    ni[q].origin.crate_version,
                ) == version::version_of(ni[r].origin.crate_version) ==> q <= r)
            &&& forall|j: int|
                0 <= j < kept.len() && (#[trigger] kept[j]).reg.ty_name == ni[r].reg.ty_name
                    && kept[j].reg.name == ni[r].reg.name ==> j == k
            &&& ({
                let a = version::version_of(ni[r].origin.crate_version);
                let b = version::version_of(kept[k].origin.crate_version);
                a.0 < b.0 || (a.0 == b.0 && (a.1 < b.1 || (a.1 == b.1 && a.2 <= b.2)))
            })
        }),
{
    let kept = lane::newest_inputs(ni);
    invariance::lemma_newest_inputs(ni);
    let q = invariance::lemma_newest_exists(ni, r);
    assert(kept.contains(ni[q]));
    let k = choose|k: int| 0 <= k < kept.len() && kept[k] == ni[q];
    assert(lane::same_input(ni[r], ni[q]));
    let less = invariance::input_less();
    assert forall|j: int|
        0 <= j < kept.len() && (#[trigger] kept[j]).reg.ty_name == ni[r].reg.ty_name
            && kept[j].reg.name == ni[r].reg.name implies j == k by {
        text::lemma_text_irreflexive(kept[j].reg.name);
        text::lemma_text_irreflexive(kept[j].reg.ty_name);
        if j < k {
            assert(less(kept[j], kept[k]));
        } else if k < j {
            assert(less(kept[k], kept[j]));
        }
    }
    k
}

/// Where only the latest of each crate is asked for, a registration is left
/// out exactly where the same crate registered the same thing under higher
/// version numbers. Otherwise everything is kept.
pub proof fn law_a_newer_version_supersedes(keys: Seq<(KeyView, OriginView)>, i: int)
    requires
        0 <= i < keys.len(),
    ensures
        resolve::survives(keys, false, i),
        !resolve::survives(keys, true, i) <==> exists|j: int|
            0 <= j < keys.len() && (#[trigger] keys[j]).0 == keys[i].0 && keys[j].1.crate_name
                == keys[i].1.crate_name && ({
                let a = version::version_of(keys[i].1.crate_version);
                let b = version::version_of(keys[j].1.crate_version);
                a.0 < b.0 || (a.0 == b.0 && (a.1 < b.1 || (a.1 == b.1 && a.2 < b.2)))
            }),
{
}

/// What a registration is reported as. Alone under its name it keeps that; where
/// the others of that name all come from different crates it says its crate,
/// where all come from its own crate it says its version, and otherwise both.
pub proof fn law_reported_names(keys: Seq<(KeyView, OriginView)>, latest: bool, i: int)
    requires
        0 <= i < keys.len(),
        resolve::survives(keys, latest, i),
        keys[i].1.crate_name.len() > 0,
        keys[i].1.crate_version.len() > 0,
    ensures
        ({
            let shares = |j: int|
                0 <= j < keys.len() && keys[j].0 == keys[i].0 && resolve::survives(
                    keys,
                    latest,
                    j,
                );
            let alone = forall|j: int| #[trigger] shares(j) ==> j == i;
            let all_differ = forall|j: int, k: int|
                #[trigger] shares(j) && #[trigger] shares(k) && keys[j].1.crate_name
                    == keys[k].1.crate_name ==> j == k;
            let all_agree = forall|j: int| #[trigger]
                shares(j) ==> keys[j].1.crate_name == keys[i].1.crate_name;
            let name = resolve::resolved_name(keys, latest, i);
            let (plain, origin) = (keys[i].0.name, keys[i].1);
            &&& alone ==> name == plain
            &&& !alone && all_differ ==> name == plain + seq!['@'] + origin.crate_name
            &&& !alone && all_agree ==> name == plain + seq!['@'] + origin.crate_version
            &&& !alone && !all_differ && !all_agree ==> name == plain + seq!['@']
                + origin.crate_name + seq!['-'] + origin.crate_version
        }),
{
    let shares = |j: int|
        0 <= j < keys.len() && keys[j].0 == keys[i].0 && resolve::survives(keys, latest, j);
    let alone = forall|j: int| #[trigger] shares(j) ==> j == i;
    let all_differ = forall|j: int, k: int|
        #[trigger] shares(j) && #[trigger] shares(k) && keys[j].1.crate_name
            == keys[k].1.crate_name ==> j == k;
    let all_agree = forall|j: int| #[trigger]
        shares(j) ==> keys[j].1.crate_name == keys[i].1.crate_name;
    reveal_strlit("@");
    reveal_strlit("-");
    assert("@"@ =~= seq!['@']);
    assert("-"@ =~= seq!['-']);
    assert forall|j: int| #[trigger] shares(j) <==> resolve::sharer(keys, latest, i, j) by {}
    assert(alone <==> resolve::stands_alone(keys, latest, i)) by {
        if alone {
            assert forall|j: int| #[trigger] resolve::sharer(keys, latest, i, j) implies j == i by {
                assert(shares(j));
            }
        }
    }
    assert(all_differ <==> resolve::crates_differ(keys, latest, i)) by {
        if all_differ {
            assert forall|j: int, k: int|
                #![trigger resolve::sharer(keys, latest, i, j), resolve::sharer(keys, latest, i, k)]
                resolve::sharer(keys, latest, i, j) && resolve::sharer(keys, latest, i, k) && j
                    != k implies keys[j].1.crate_name != keys[k].1.crate_name by {
                assert(shares(j) && shares(k));
            }
        }
        if resolve::crates_differ(keys, latest, i) {
            assert forall|j: int, k: int|
                #[trigger] shares(j) && #[trigger] shares(k) && keys[j].1.crate_name
                    == keys[k].1.crate_name implies j == k by {
                assert(resolve::sharer(keys, latest, i, j) && resolve::sharer(keys, latest, i, k));
            }
        }
    }
    assert(all_agree <==> resolve::one_crate(keys, latest, i)) by {
        if all_agree {
            assert forall|j: int| #[trigger] resolve::sharer(keys, latest, i, j) implies
                keys[j].1.crate_name == keys[i].1.crate_name by {
                assert(shares(j));
            }
        }
        if resolve::one_crate(keys, latest, i) {
            assert forall|j: int| #[trigger] shares(j) implies keys[j].1.crate_name
                == keys[i].1.crate_name by {
                assert(resolve::sharer(keys, latest, i, j));
            }
        }
    }
    if !alone && all_agree && all_differ {
        let j = choose|j: int| #[trigger] shares(j) && j != i;
        assert(shares(i) && shares(j));
    }
    if !alone && !all_differ && !all_agree {
        let (plain, origin) = (keys[i].0.name, keys[i].1);
        assert(plain + seq!['@'] + (origin.crate_name + seq!['-'] + origin.crate_version) =~= plain
            + seq!['@'] + origin.crate_name + seq!['-'] + origin.crate_version);
    }
}

/// Sorting by name moves every item to a place of its own.
proof fn lemma_sorted_places<V>(s: Seq<NamedView<V>>) -> (at: Seq<int>)
    ensures
        lists::sorted_by_name(s) == lists::picked(s, at),
        forall|k: int| 0 <= k < at.len() ==> 0 <= #[trigger] at[k] < s.len(),
        forall|j: int, k: int|
            #![trigger at[j], at[k]]
            0 <= j < k < at.len() ==> at[j] != at[k],
        forall|i: int| 0 <= i < s.len() ==> #[trigger] at.contains(i),
{
    let names = lists::names_of(s);
    let n = s.len() as int;
    let keep = |i: int| true;
    let before = |i: int, j: int| lists::text_then_position(names, i, j);
    lists::lemma_text_then_position(names);
    order::lemma_arrangement(n, keep, before);
    let at = lists::name_order(names);
    assert forall|j: int, k: int|
        #![trigger at[j], at[k]]
        0 <= j < k < at.len() implies at[j] != at[k] by {
        assert(before(at[j], at[k]));
        assert(!before(at[j], at[j]));
    }
    assert forall|i: int| 0 <= i < n implies #[trigger] at.contains(i) by {
        assert(keep(i));
    }
    at
}

/// Whether two of `cs` come from one crate at one version and both ask to be
/// the baseline.
pub open spec fn two_baselines(cs: Seq<NamedView<CandidateView>>) -> bool {
    exists|p: int, q: int|
        #![trigger cs[p], cs[q]]
        0 <= p < q < cs.len() && cs[p].reg.is_baseline && cs[q].reg.is_baseline
            && cs[p].origin.crate_name == cs[q].origin.crate_name && cs[p].origin.crate_version
            == cs[q].origin.crate_version
}

/// Sorting neither makes nor hides a contradiction.
proof fn lemma_contradiction_sorted(cs: Seq<NamedView<CandidateView>>)
    ensures
        lane::contradicts_itself(lists::sorted_by_name(cs)) <==> two_baselines(cs),
{
    let at = lemma_sorted_places(cs);
    let sorted = lists::sorted_by_name(cs);
    if lane::contradicts_itself(sorted) {
        let (p, q) = choose|p: int, q: int|
            #![trigger lane::claims(sorted, p), lane::claims(sorted, q)]
            p < q && lane::claims(sorted, p) && lane::claims(sorted, q) && sorted[p].origin
                == sorted[q].origin;
        let (a, b) = (at[p], at[q]);
        assert(sorted[p] == cs[a] && sorted[q] == cs[b]);
        if a < b {
            assert(cs[a].reg.is_baseline && cs[b].reg.is_baseline);
        } else {
            assert(cs[b].reg.is_baseline && cs[a].reg.is_baseline);
        }
    }
    if two_baselines(cs) {
        let (a, b) = choose|p: int, q: int|
            #![trigger cs[p], cs[q]]
            0 <= p < q < cs.len() && cs[p].reg.is_baseline && cs[q].reg.is_baseline
                && cs[p].origin.crate_name == cs[q].origin.crate_name && cs[p].origin.crate_version
                == cs[q].origin.crate_version;
        assert(at.contains(a) && at.contains(b));
        let p = choose|p: int| 0 <= p < at.len() && at[p] == a;
        let q = choose|q: int| 0 <= q < at.len() && at[q] == b;
        assert(sorted[p] == cs[a] && sorted[q] == cs[b]);
        assert(cs[a].origin =~= cs[b].origin);
        assert(lane::claims(sorted, p) && lane::claims(sorted, q));
    }
}

/// Candidates and inputs of one type make a lane exactly where there are some
/// of each, the unit type needing no input of its own, where all are of the very
/// same type, and where no crate asks for two baselines. The lane holds all of
/// them, and nothing is complained of.
pub proof fn law_when_a_lane_comes_of_a_pairing(
    group: Seq<char>,
    ty: Seq<char>,
    cs: Seq<NamedView<CandidateView>>,
    registered: Seq<NamedView<InputView>>,
)
    ensures
        ({
            let p = lane::pairing(group, ty, cs, registered);
            let want = if registered.len() > 0 {
                registered[0].reg.type_id
            } else {
                registry::UNIT_TYPE
            };
            let fits = {
                &&& cs.len() > 0
                &&& registered.len() > 0 || ty == seq!['(', ')']
                &&& forall|i: int|
                    0 <= i < registered.len() ==> (#[trigger] registered[i]).reg.type_id == want
                &&& forall|i: int| 0 <= i < cs.len() ==> (#[trigger] cs[i]).reg.input_type == want
                &&& !two_baselines(cs)
            };
            &&& p.lane is Some <==> fits
            &&& p.lane matches Some(l) ==> {
                &&& p.problems.len() == 0
                &&& l.group == group
                &&& l.ty_name == ty
                &&& forall|c: NamedView<CandidateView>| #[trigger]
                    l.candidates.contains(c) <==> cs.contains(c)
                &&& registered.len() > 0 ==> forall|i: NamedView<InputView>| #[trigger]
                    l.inputs.contains(i) <==> registered.contains(i)
                &&& registered.len() == 0 ==> l.inputs.len() == 1 && l.inputs[0].name.len() == 0
                    && l.inputs[0].reg.ty_name == ty && l.inputs[0].reg.type_id
                    == registry::UNIT_TYPE && l.inputs[0].reg.make == registry::UNIT_MAKE
            }
        }),
{
    let p = lane::pairing(group, ty, cs, registered);
    let used = lane::inputs_or_unit(ty, registered);
    let sorted = lists::sorted_by_name(cs);
    reveal_strlit("()");
    assert("()"@ =~= seq!['(', ')']);
    invariance::lemma_mismatches(group, used, cs);
    lemma_contradiction_sorted(cs);
    invariance::lemma_sorted_by_name(cs);
    invariance::lemma_sorted_by_name(used);
    plan_laws::lemma_baseline_first(sorted, lane::baseline_name(sorted));
    lists::lemma_sorted_keeps_length(used);
    if used.len() > 0 && cs.len() > 0 {
        let want = used[0].reg.type_id;
        assert((forall|x: NamedView<InputView>| #[trigger]
            used.contains(x) ==> x.reg.type_id == want) <==> (forall|i: int|
            0 <= i < used.len() ==> (#[trigger] used[i]).reg.type_id == want)) by {
            if forall|x: NamedView<InputView>| #[trigger]
                used.contains(x) ==> x.reg.type_id == want {
                assert forall|i: int| 0 <= i < used.len() implies (#[trigger] used[i]).reg.type_id
                    == want by {
                    assert(used.contains(used[i]));
                }
            }
        }
        assert((forall|x: NamedView<CandidateView>| #[trigger]
            cs.contains(x) ==> x.reg.input_type == want) <==> (forall|i: int|
            0 <= i < cs.len() ==> (#[trigger] cs[i]).reg.input_type == want)) by {
            if forall|x: NamedView<CandidateView>| #[trigger]
                cs.contains(x) ==> x.reg.input_type == want {
                assert forall|i: int| 0 <= i < cs.len() implies (#[trigger] cs[i]).reg.input_type
                    == want by {
                    assert(cs.contains(cs[i]));
                }
            }
        }
        if registered.len() == 0 {
            assert(used.contains(used[0]));
            assert(lists::sorted_by_name(used).contains(lists::sorted_by_name(used)[0]));
        }
    }
}

/// A candidate without an input of its type, or an input without a candidate,
/// is remarked upon by its own name, group and type, in order.
pub proof fn law_orphans_are_named(
    group: Seq<char>,
    ty: Seq<char>,
    cs: Seq<NamedView<CandidateView>>,
    registered: Seq<NamedView<InputView>>,
)
    ensures
        registered.len() == 0 && ty != seq!['(', ')'] ==> ({
            let problems = lane::pairing(group, ty, cs, registered).problems;
            &&& problems.len() == cs.len()
            &&& forall|i: int|
                0 <= i < cs.len() ==> #[trigger] problems[i] == (DiagnosticView::OrphanCandidate {
                    matrix: group,
                    name: cs[i].name,
                    ty_name: cs[i].reg.input_type_name,
                })
        }),
        registered.len() > 0 && cs.len() == 0 ==> ({
            let problems = lane::pairing(group, ty, cs, registered).problems;
            &&& problems.len() == registered.len()
            &&& forall|i: int|
                0 <= i < registered.len() ==> #[trigger] problems[i] == (
                DiagnosticView::OrphanInput {
                    matrix: group,
                    name: registered[i].name,
                    ty_name: registered[i].reg.ty_name,
                })
        }),
{
    reveal_strlit("()");
    assert("()"@ =~= seq!['(', ')']);
}

/// Every input and every candidate that is not of the first input's type is
/// complained of by its own name, and nothing that is of that type.
pub proof fn law_mismatches_are_named(
    group: Seq<char>,
    used: Seq<NamedView<InputView>>,
    cs: Seq<NamedView<CandidateView>>,
    d: DiagnosticView,
)
    requires
        used.len() > 0,
    ensures
        lane::mismatches(group, used, cs).contains(d) <==> {
            ||| exists|i: int|
                0 <= i < used.len() && (#[trigger] used[i]).reg.type_id != used[0].reg.type_id && d
                    == (DiagnosticView::MatrixTypeMismatch {
                    matrix: group,
                    candidate: used[i].name,
                    ty_name: used[i].reg.ty_name,
                })
            ||| exists|i: int|
                0 <= i < cs.len() && (#[trigger] cs[i]).reg.input_type != used[0].reg.type_id && d
                    == (DiagnosticView::MatrixTypeMismatch {
                    matrix: group,
                    candidate: cs[i].name,
                    ty_name: cs[i].reg.input_type_name,
                })
        },
{
    let want = used[0].reg.type_id;
    let fi = |i: NamedView<InputView>|
        if i.reg.type_id != want {
            Some(
                DiagnosticView::MatrixTypeMismatch {
                    matrix: group,
                    candidate: i.name,
                    ty_name: i.reg.ty_name,
                },
            )
        } else {
            None
        };
    let fc = |c: NamedView<CandidateView>|
        if c.reg.input_type != want {
            Some(
                DiagnosticView::MatrixTypeMismatch {
                    matrix: group,
                    candidate: c.name,
                    ty_name: c.reg.input_type_name,
                },
            )
        } else {
            None
        };
    reorder::lemma_filter_map_contains(used, fi);
    reorder::lemma_filter_map_contains(cs, fc);
    let all = lane::mismatches(group, used, cs);
    assert(all == used.filter_map(fi) + cs.filter_map(fc));
    invariance::lemma_contains_add(used.filter_map(fi), cs.filter_map(fc), d);
    if used.filter_map(fi).contains(d) {
        let i = choose|i: int| 0 <= i < used.len() && #[trigger] fi(used[i]) == Some(d);
        assert(used[i].reg.type_id != want);
    }
    if cs.filter_map(fc).contains(d) {
        let i = choose|i: int| 0 <= i < cs.len() && #[trigger] fc(cs[i]) == Some(d);
        assert(cs[i].reg.input_type != want);
    }
    assert forall|i: int|
        0 <= i < used.len() && (#[trigger] used[i]).reg.type_id != want && d == (
        DiagnosticView::MatrixTypeMismatch {
            matrix: group,
            candidate: used[i].name,
            ty_name: used[i].reg.ty_name,
        }) implies all.contains(d) by {
        assert(fi(used[i]) == Some(d));
    }
    assert forall|i: int|
        0 <= i < cs.len() && (#[trigger] cs[i]).reg.input_type != want && d == (
        DiagnosticView::MatrixTypeMismatch {
            matrix: group,
            candidate: cs[i].name,
            ty_name: cs[i].reg.input_type_name,
        }) implies all.contains(d) by {
        assert(fc(cs[i]) == Some(d));
    }
}

/// Where a crate asks for two baselines of one lane, that is the one complaint,
/// and every candidate that asks is listed: its crate, version and name.
pub proof fn law_rival_baselines_are_listed(
    group: Seq<char>,
    ty: Seq<char>,
    cs: Seq<NamedView<CandidateView>>,
    registered: Seq<NamedView<InputView>>,
    p: int,
)
    requires
        registered.len() > 0,
        forall|i: int|
            0 <= i < registered.len() ==> (#[trigger] registered[i]).reg.type_id
                == registered[0].reg.type_id,
        forall|i: int|
            0 <= i < cs.len() ==> (#[trigger] cs[i]).reg.input_type == registered[0].reg.type_id,
        two_baselines(cs),
        0 <= p < cs.len(),
        cs[p].reg.is_baseline,
    ensures
        ({
            let problems = lane::pairing(group, ty, cs, registered).problems;
            &&& problems.len() == 1
            &&& problems[0] matches DiagnosticView::ManyBaselines { group: said, claimants } && said
                == group && claimants.contains(
                cs[p].origin.crate_name + seq!['@'] + cs[p].origin.crate_version + seq![' ', '(']
                    + cs[p].name + seq![')'],
            ) && forall|k: int|
                0 <= k < claimants.len() ==> exists|q: int|
                    0 <= q < cs.len() && (#[trigger] cs[q]).reg.is_baseline
                        && #[trigger] claimants[k] == cs[q].origin.crate_name + seq!['@']
                        + cs[q].origin.crate_version + seq![' ', '('] + cs[q].name + seq![')']
        }),
{
    let sorted = lists::sorted_by_name(cs);
    invariance::lemma_mismatches(group, registered, cs);
    lemma_contradiction_sorted(cs);
    invariance::lemma_sorted_by_name(cs);
    let asks = |c: NamedView<CandidateView>| c.reg.is_baseline;
    let say = |c: NamedView<CandidateView>| lane::rendered(c.origin, c.name);
    reorder::lemma_filter_contains(sorted, asks);
    assert(cs.contains(cs[p]));
    assert(sorted.contains(cs[p]));
    assert(sorted.filter(asks).contains(cs[p]));
    let k = choose|k: int| 0 <= k < sorted.filter(asks).len() && sorted.filter(asks)[k] == cs[p];
    let claimants = sorted.filter(asks).map_values(say);
    assert(claimants[k] == say(cs[p]));
    reveal_strlit("@");
    reveal_strlit(" (");
    reveal_strlit(")");
    assert("@"@ =~= seq!['@']);
    assert(" ("@ =~= seq![' ', '(']);
    assert(")"@ =~= seq![')']);
    assert forall|k: int| 0 <= k < claimants.len() implies exists|q: int|
        0 <= q < cs.len() && (#[trigger] cs[q]).reg.is_baseline && #[trigger] claimants[k]
            == cs[q].origin.crate_name + seq!['@'] + cs[q].origin.crate_version + seq![' ', '(']
            + cs[q].name + seq![')'] by {
        let c = sorted.filter(asks)[k];
        assert(sorted.filter(asks).contains(c));
        assert(sorted.contains(c) && asks(c));
        assert(cs.contains(c));
        let q = choose|q: int| 0 <= q < cs.len() && cs[q] == c;
        assert(claimants[k] == say(cs[q]));
    }
    let problems = lane::pairing(group, ty, cs, registered).problems;
    assert(problems.len() == 1);
    assert(problems[0] == DiagnosticView::ManyBaselines { group, claimants });
}

/// The cells of a lane say their type exactly where another input of the same
/// group has the name of one of the lane's.
pub proof fn law_the_type_is_said_where_names_collide(
    regs: Seq<RegisteredView>,
    cands: Seq<CandidateView>,
    inputs: Seq<InputView>,
    l: int,
)
    requires
        0 <= l < assemble::plan_of(regs, cands, inputs).lanes.len(),
    ensures
        ({
            let lanes = assemble::plan_of(regs, cands, inputs).lanes;
            lanes[l].needs_type_suffix <==> exists|a: int, m: int, b: int|
                #![trigger lanes[l].inputs[a], lanes[m].inputs[b]]
                0 <= a < lanes[l].inputs.len() && 0 <= m < lanes.len() && 0 <= b
                    < lanes[m].inputs.len() && (m != l || a != b) && lanes[m].group
                    == lanes[l].group && lanes[m].inputs[b].name == lanes[l].inputs[a].name
        }),
{
    let raw = assemble::all_lanes(cands, inputs);
    let lanes = assemble::plan_of(regs, cands, inputs).lanes;
    if lanes[l].needs_type_suffix {
        let (a, m, b) = choose|a: int, m: int, b: int| #[trigger]
            assemble::input_names_collide(raw, l, a, m, b);
        assert(lanes[l].inputs[a] == raw[l].inputs[a]);
        assert(lanes[m].inputs[b] == raw[m].inputs[b]);
        assert(lanes[m].group == raw[m].group);
    }
    assert forall|a: int, m: int, b: int|
        #![trigger lanes[l].inputs[a], lanes[m].inputs[b]]
        0 <= a < lanes[l].inputs.len() && 0 <= m < lanes.len() && 0 <= b < lanes[m].inputs.len() && (
        m != l || a != b) && lanes[m].group == lanes[l].group && lanes[m].inputs[b].name
            == lanes[l].inputs[a].name implies lanes[l].needs_type_suffix by {
        assert(lanes[m].inputs == raw[m].inputs);
        assert(assemble::input_names_collide(raw, l, a, m, b));
    }
}

/// Where two benchmarks that stand alone would be reported under one name, a
/// complaint lists where each of them came from.
pub proof fn law_a_shared_name_is_complained_of(
    named: Seq<NamedView<RegisteredView>>,
    i: int,
    j: int,
) -> (d: DiagnosticView)
    requires
        0 <= i < named.len(),
        0 <= j < named.len(),
        i != j,
        named[i].name == named[j].name,
    ensures
        assemble::name_duplicates(named).contains(d),
        d matches DiagnosticView::DuplicateName { name: _, sources } && sources.contains(
            named[i].reg.crate_name + seq!['@'] + named[i].reg.crate_version + seq![' ', '(']
                + named[i].reg.name + seq![')'],
        ),
{
    let names = lists::names_of(named);
    invariance::lemma_distinct_sorted(names);
    let at = lists::distinct_order(names);
    let first = invariance::lemma_first_occurrence(names, i);
    let keep = |i: int| lists::first_of_its_kind(names, i);
    assert(keep(first));
    assert(at.contains(first));
    let k = choose|k: int| 0 <= k < at.len() && at[k] == first;
    assert(lists::repeated(names, first)) by {
        if first == i {
            assert(names[j] == names[first]);
        } else {
            assert(names[i] == names[first]);
        }
    }
    let f = |p: int|
        if lists::repeated(names, p) {
            Some(
                DiagnosticView::DuplicateName {
                    name: named[p].reg.name,
                    sources: named.filter(
                        |r: NamedView<RegisteredView>| r.name == named[p].name,
                    ).map_values(|r: NamedView<RegisteredView>| assemble::source_of(r.reg)),
                },
            )
        } else {
            None
        };
    reorder::lemma_filter_map_contains(at, f);
    assert(assemble::name_duplicates(named) == at.filter_map(f));
    let d = f(at[k])->0;
    assert(f(at[k]) is Some);
    let same = |r: NamedView<RegisteredView>| r.name == named[first].name;
    let say = |r: NamedView<RegisteredView>| assemble::source_of(r.reg);
    reorder::lemma_filter_contains(named, same);
    assert(named.contains(named[i]));
    assert(named.filter(same).contains(named[i]));
    let m = choose|m: int| 0 <= m < named.filter(same).len() && named.filter(same)[m] == named[i];
    assert(named.filter(same).map_values(say)[m] == say(named[i]));
    reveal_strlit("@");
    reveal_strlit(" (");
    reveal_strlit(")");
    assert("@"@ =~= seq!['@']);
    assert(" ("@ =~= seq![' ', '(']);
    assert(")"@ =~= seq![')']);
    assert(say(named[i]) =~= named[i].reg.crate_name + seq!['@'] + named[i].reg.crate_version
        + seq![' ', '('] + named[i].reg.name + seq![')']);
    d
}

/// Where two candidates of one lane would be reported under one name, a
/// complaint says so, under the name the first of them registered; and nothing
/// else is complained of.
pub proof fn law_a_repeated_candidate_is_complained_of(
    group: Seq<char>,
    cs: Seq<NamedView<CandidateView>>,
    d: DiagnosticView,
)
    ensures
        lane::candidate_duplicates(group, cs).contains(d) <==> exists|i: int, j: int|
            #![trigger cs[i], cs[j]]
            0 <= i < j < cs.len() && cs[i].name == cs[j].name && (forall|k: int|
                0 <= k < i ==> (#[trigger] cs[k]).name != cs[i].name) && d == (
            DiagnosticView::DuplicateMatrixEntry {
                matrix: group,
                what: "candidate"@,
                name: cs[i].reg.name,
            }),
{
    let names = lists::names_of(cs);
    invariance::lemma_distinct_sorted(names);
    let at = lists::distinct_order(names);
    let keep = |i: int| lists::first_of_its_kind(names, i);
    let f = |p: int|
        if lists::repeated(names, p) {
            Some(lane::twice(group, "candidate"@, cs[p].reg.name))
        } else {
            None
        };
    reorder::lemma_filter_map_contains(at, f);
    assert(lane::candidate_duplicates(group, cs) == at.filter_map(f));
    if at.filter_map(f).contains(d) {
        let k = choose|k: int| 0 <= k < at.len() && #[trigger] f(at[k]) == Some(d);
        let i = at[k];
        assert(keep(i));
        let j = choose|j: int| 0 <= j < names.len() && j != i && #[trigger] names[j] == names[i];
        if j < i {
            assert(names[j] != names[i]);
        }
        assert forall|m: int| 0 <= m < i implies (#[trigger] cs[m]).name != cs[i].name by {
            assert(names[m] != names[i]);
        }
        assert(cs[i].name == cs[j].name);
    }
    assert forall|i: int, j: int|
        #![trigger cs[i], cs[j]]
        0 <= i < j < cs.len() && cs[i].name == cs[j].name && (forall|k: int|
            0 <= k < i ==> (#[trigger] cs[k]).name != cs[i].name) && d == (
        DiagnosticView::DuplicateMatrixEntry {
            matrix: group,
            what: "candidate"@,
            name: cs[i].reg.name,
        }) implies at.filter_map(f).contains(d) by {
        assert forall|m: int| 0 <= m < i implies #[trigger] names[m] != names[i] by {
            assert(cs[m].name != cs[i].name);
        }
        assert(keep(i));
        assert(at.contains(i));
        let k = choose|k: int| 0 <= k < at.len() && at[k] == i;
        assert(names[j] == names[i]);
        assert(lists::repeated(names, i));
        assert(f(at[k]) == Some(d));
    }
}

/// Where a registration comes out, sorted by key, where it is kept.
proof fn lemma_place_of<V>(
    items: Seq<V>,
    keys: Seq<(KeyView, OriginView)>,
    latest: bool,
    i: int,
) -> (k: int)
    requires
        0 <= i < keys.len(),
        resolve::survives(keys, latest, i),
    ensures
        0 <= k < resolve::arranged(items, keys, latest).len(),
        resolve::arranged(items, keys, latest)[k] == resolve::named_as(items, keys, latest, i),
{
    invariance::lemma_in_key_order(keys, latest);
    let keep = |i: int| resolve::survives(keys, latest, i);
    assert(keep(i));
    let at = resolve::key_order(keys, latest);
    assert(at.contains(i));
    choose|k: int| 0 <= k < at.len() && at[k] == i
}

/// Every candidate of a group comes out, with where it came from. It keeps
/// its name unless another of that name takes the same type, and where those
/// all come from different crates it says its own.
pub proof fn law_what_candidates_are_called(
    group: Seq<char>,
    cands: Seq<CandidateView>,
    i: int,
) -> (k: int)
    requires
        0 <= i < cands.len(),
        cands[i].crate_name.len() > 0,
        cands[i].crate_version.len() > 0,
    ensures
        ({
            let named = assemble::named_candidates(group, cands);
            let alike = |j: int|
                0 <= j < cands.len() && cands[j].name == cands[i].name && cands[j].input_type_name
                    == cands[i].input_type_name;
            let alone = forall|j: int| #[trigger] alike(j) ==> j == i;
            let all_differ = forall|j: int, l: int|
                #[trigger] alike(j) && #[trigger] alike(l) && cands[j].crate_name
                    == cands[l].crate_name ==> j == l;
            &&& 0 <= k < named.len()
            &&& named[k].reg == cands[i]
            &&& named[k].origin.crate_name == cands[i].crate_name
            &&& named[k].origin.crate_version == cands[i].crate_version
            &&& alone ==> named[k].name == cands[i].name
            &&& !alone && all_differ ==> named[k].name == cands[i].name + seq!['@']
                + cands[i].crate_name
        }),
{
    let keys = lane::candidate_entries(group, cands);
    law_reported_names(keys, false, i);
    let shares = |j: int|
        0 <= j < keys.len() && keys[j].0 == keys[i].0 && resolve::survives(keys, false, j);
    let alike = |j: int|
        0 <= j < cands.len() && cands[j].name == cands[i].name && cands[j].input_type_name
            == cands[i].input_type_name;
    assert forall|j: int| #[trigger] shares(j) <==> alike(j) by {
        if alike(j) {
            assert(keys[j].0 =~= keys[i].0);
        }
    }
    lemma_same_questions(shares, alike, i, keys, cands.map_values(|c: CandidateView| c.crate_name));
    lemma_place_of(cands, keys, false, i)
}

/// Asking of the same registrations whether one is alone, or all are of
/// different crates, has the same answer.
proof fn lemma_same_questions(
    shares: spec_fn(int) -> bool,
    alike: spec_fn(int) -> bool,
    i: int,
    keys: Seq<(KeyView, OriginView)>,
    crates: Seq<Seq<char>>,
)
    requires
        forall|j: int| #[trigger] shares(j) <==> alike(j),
        forall|j: int| #[trigger] alike(j) ==> keys[j].1.crate_name == crates[j],
    ensures
        (forall|j: int| #[trigger] shares(j) ==> j == i) <==> (forall|j: int| #[trigger]
            alike(j) ==> j == i),
        (forall|j: int, k: int|
            #[trigger] shares(j) && #[trigger] shares(k) && keys[j].1.crate_name
                == keys[k].1.crate_name ==> j == k) <==> (forall|j: int, k: int|
            #[trigger] alike(j) && #[trigger] alike(k) && crates[j] == crates[k] ==> j == k),
{
    if forall|j: int| #[trigger] alike(j) ==> j == i {
        assert forall|j: int| #[trigger] shares(j) implies j == i by {
            assert(alike(j));
        }
    }
    if forall|j: int| #[trigger] shares(j) ==> j == i {
        assert forall|j: int| #[trigger] alike(j) implies j == i by {
            assert(shares(j));
        }
    }
    if forall|j: int, k: int|
        #[trigger] alike(j) && #[trigger] alike(k) && crates[j] == crates[k] ==> j == k {
        assert forall|j: int, k: int|
            #[trigger] shares(j) && #[trigger] shares(k) && keys[j].1.crate_name
                == keys[k].1.crate_name implies j == k by {
            assert(alike(j) && alike(k));
        }
    }
    if forall|j: int, k: int|
        #[trigger] shares(j) && #[trigger] shares(k) && keys[j].1.crate_name
            == keys[k].1.crate_name ==> j == k {
        assert forall|j: int, k: int|
            #[trigger] alike(j) && #[trigger] alike(k) && crates[j] == crates[k] implies j == k by {
            assert(shares(j) && shares(k));
        }
    }
}

/// Every benchmark that stands alone comes out, with where it came from. It
/// keeps its name unless another has it too, and where those all come from
/// different crates it says its own.
pub proof fn law_what_standalone_benchmarks_are_called(regs: Seq<RegisteredView>, i: int) -> (k:
    int)
    requires
        0 <= i < regs.len(),
        regs[i].crate_name.len() > 0,
        regs[i].crate_version.len() > 0,
    ensures
        ({
            let named = assemble::named_registered(regs);
            let alike = |j: int| 0 <= j < regs.len() && regs[j].name == regs[i].name;
            let alone = forall|j: int| #[trigger] alike(j) ==> j == i;
            let all_differ = forall|j: int, l: int|
                #[trigger] alike(j) && #[trigger] alike(l) && regs[j].crate_name
                    == regs[l].crate_name ==> j == l;
            &&& 0 <= k < named.len()
            &&& named[k].reg == regs[i]
            &&& named[k].origin.crate_name == regs[i].crate_name
            &&& named[k].origin.crate_version == regs[i].crate_version
            &&& alone ==> named[k].name == regs[i].name
            &&& !alone && all_differ ==> named[k].name == regs[i].name + seq!['@']
                + regs[i].crate_name
        }),
{
    let keys = assemble::registered_entries(regs);
    law_reported_names(keys, false, i);
    let shares = |j: int|
        0 <= j < keys.len() && keys[j].0 == keys[i].0 && resolve::survives(keys, false, j);
    let alike = |j: int| 0 <= j < regs.len() && regs[j].name == regs[i].name;
    assert forall|j: int| #[trigger] shares(j) <==> alike(j) by {
        if alike(j) {
            assert(keys[j].0 =~= keys[i].0);
        }
    }
    lemma_same_questions(
        shares,
        alike,
        i,
        keys,
        regs.map_values(|r: RegisteredView| r.crate_name),
    );
    lemma_place_of(regs, keys, false, i)
}

/// An input comes out unless its crate registered one of the same name and type
/// under higher version numbers. It keeps its name where no other input of its
/// group has that name and type.
pub proof fn law_what_inputs_are_called(group: Seq<char>, inputs: Seq<InputView>, i: int) -> (k:
    int)
    requires
        0 <= i < inputs.len(),
        inputs[i].crate_name.len() > 0,
        inputs[i].crate_version.len() > 0,
        forall|j: int|
            0 <= j < inputs.len() && (#[trigger] inputs[j]).name == inputs[i].name
                && inputs[j].ty_name == inputs[i].ty_name && inputs[j].crate_name
                == inputs[i].crate_name ==> {
                let a = version::version_of(inputs[j].crate_version);
                let b = version::version_of(inputs[i].crate_version);
                a.0 < b.0 || (a.0 == b.0 && (a.1 < b.1 || (a.1 == b.1 && a.2 <= b.2)))
            },
    ensures
        ({
            let named = assemble::named_inputs(group, inputs);
            let alone = forall|j: int|
                0 <= j < inputs.len() && (#[trigger] inputs[j]).name == inputs[i].name
                    && inputs[j].ty_name == inputs[i].ty_name ==> j == i;
            &&& 0 <= k < named.len()
            &&& named[k].reg == inputs[i]
            &&& named[k].origin.crate_name == inputs[i].crate_name
            &&& named[k].origin.crate_version == inputs[i].crate_version
            &&& alone ==> named[k].name == inputs[i].name
        }),
{
    let keys = lane::input_entries(group, inputs);
    law_a_newer_version_supersedes(keys, i);
    if !resolve::survives(keys, true, i) {
        let j = choose|j: int|
            0 <= j < keys.len() && (#[trigger] keys[j]).0 == keys[i].0 && keys[j].1.crate_name
                == keys[i].1.crate_name && ({
                let a = version::version_of(keys[i].1.crate_version);
                let b = version::version_of(keys[j].1.crate_version);
                a.0 < b.0 || (a.0 == b.0 && (a.1 < b.1 || (a.1 == b.1 && a.2 < b.2)))
            });
        assert(inputs[j].name == inputs[i].name && inputs[j].ty_name == inputs[i].ty_name);
    }
    law_reported_names(keys, true, i);
    let shares = |j: int|
        0 <= j < keys.len() && keys[j].0 == keys[i].0 && resolve::survives(keys, true, j);
    if forall|j: int|
        0 <= j < inputs.len() && (#[trigger] inputs[j]).name == inputs[i].name && inputs[j].ty_name
            == inputs[i].ty_name ==> j == i {
        assert forall|j: int| #[trigger] shares(j) implies j == i by {
            assert(inputs[j].name == inputs[i].name && inputs[j].ty_name == inputs[i].ty_name);
        }
    }
    lemma_place_of(inputs, keys, true, i)
}

/// What comes out sorted by key is sorted by scope, then type, then name, and
/// where all three agree stays as it came in, or goes by crate where only the
/// latest of each crate is kept.
pub proof fn law_keys_sort_by_scope_type_and_name(
    keys: Seq<(KeyView, OriginView)>,
    latest: bool,
    p: int,
    q: int,
)
    requires
        0 <= p < q < resolve::key_order(keys, latest).len(),
    ensures
        ({
            let at = resolve::key_order(keys, latest);
            let (a, b) = (keys[at[p]].0, keys[at[q]].0);
            let (x, y) = (keys[at[p]].1.crate_name, keys[at[q]].1.crate_name);
            &&& 0 <= at[p] < keys.len()
            &&& !text::text_before(b.scope, a.scope)
            &&& a.scope == b.scope ==> !text::text_before(b.ty_name, a.ty_name)
            &&& a.scope == b.scope && a.ty_name == b.ty_name ==> !text::text_before(b.name, a.name)
            &&& a == b && (!latest || x == y) ==> at[p] < at[q]
            &&& a == b && latest ==> !text::text_before(y, x)
        }),
{
    invariance::lemma_in_key_order(keys, latest);
    invariance::lemma_text_one_way();
    let at = resolve::key_order(keys, latest);
    let before = |i: int, j: int| resolve::keyed_before(keys, latest, i, j);
    let keep = |i: int| resolve::survives(keys, latest, i);
    assert(before(at[p], at[q]));
    assert(keep(at[p]));
    let (a, b) = (keys[at[p]].0, keys[at[q]].0);
    text::lemma_text_irreflexive(a.scope);
    text::lemma_text_irreflexive(a.ty_name);
    text::lemma_text_irreflexive(a.name);
    text::lemma_text_irreflexive(keys[at[p]].1.crate_name);
}

/// An input is complained of as registered again only where one of the same
/// type and name was there before it, from the same crate and under the same
/// version numbers; and always where, besides, none of that type and name came
/// before it from elsewhere.
pub proof fn law_an_input_registered_again_is_complained_of(
    group: Seq<char>,
    ni: Seq<NamedView<InputView>>,
    p: int,
)
    requires
        0 <= p < ni.len(),
    ensures
        ({
            let alike = |q: int|
                0 <= q < p && ni[q].reg.ty_name == ni[p].reg.ty_name && ni[q].reg.name
                    == ni[p].reg.name;
            let same = |q: int|
                ni[q].origin.crate_name == ni[p].origin.crate_name && version::version_of(
                    ni[q].origin.crate_version,
                ) == version::version_of(ni[p].origin.crate_version);
            &&& lane::is_duplicate_input(ni, p) ==> exists|q: int| #[trigger] alike(q) && same(q)
            &&& (exists|q: int| #[trigger] alike(q)) && (forall|q: int| #[trigger]
                alike(q) ==> same(q)) ==> lane::is_duplicate_input(ni, p)
            &&& lane::is_duplicate_input(ni, p) ==> lane::input_duplicates(group, ni).contains(
                DiagnosticView::DuplicateMatrixEntry {
                    matrix: group,
                    what: "input"@,
                    name: ni[p].reg.name,
                },
            )
        }),
{
    let alike = |q: int|
        0 <= q < p && ni[q].reg.ty_name == ni[p].reg.ty_name && ni[q].reg.name == ni[p].reg.name;
    let same = |q: int|
        ni[q].origin.crate_name == ni[p].origin.crate_name && version::version_of(
            ni[q].origin.crate_version,
        ) == version::version_of(ni[p].origin.crate_version);
    if lane::is_duplicate_input(ni, p) {
        let q = choose|q: int| #[trigger]
            lane::held_before(ni, q, p) && ni[q].origin.crate_name == ni[p].origin.crate_name
                && ni[q].origin.numbers() == ni[p].origin.numbers();
        assert(alike(q) && same(q));
        let all = lane::positions(ni.len());
        let f = |p: int|
            if lane::is_duplicate_input(ni, p) {
                Some(lane::twice(group, "input"@, ni[p].reg.name))
            } else {
                None
            };
        reorder::lemma_filter_map_contains(all, f);
        assert(all[p] == p);
        assert(f(all[p]) is Some);
        assert(lane::input_duplicates(group, ni) == all.filter_map(f));
    }
    if (exists|q: int| #[trigger] alike(q)) && (forall|q: int| #[trigger] alike(q) ==> same(q)) {
        let any = choose|q: int| #[trigger] alike(q);
        let first = lemma_first_such(alike, any);
        assert(alike(first) && same(first));
        assert forall|r: int|
            0 <= r < p && lane::same_input(#[trigger] ni[r], ni[p]) implies !version::older(
            ni[first].origin.numbers(),
            ni[r].origin.numbers(),
        ) && (r < first ==> version::older(
            ni[r].origin.numbers(),
            ni[first].origin.numbers(),
        )) by {
            assert(alike(r));
            assert(same(r));
        }
        assert(lane::held_before(ni, first, p));
    }
}

/// The first position of which something holds.
proof fn lemma_first_such(holds: spec_fn(int) -> bool, any: int) -> (first: int)
    requires
        holds(any),
        forall|q: int| #[trigger] holds(q) ==> q >= 0,
    ensures
        holds(first),
        forall|q: int| #[trigger] holds(q) ==> q >= first,
    decreases any,
{
    if exists|q: int| #[trigger] holds(q) && q < any {
        let q = choose|q: int| #[trigger] holds(q) && q < any;
        lemma_first_such(holds, q)
    } else {
        any
    }
}

/// One more group that an item names.
proof fn lemma_copies<V>(
    item: V,
    groups: Seq<Seq<char>>,
    more: Seq<char>,
    group: Seq<char>,
)
    ensures
        assemble::copies(item, groups.push(more), group) == if more == group {
            assemble::copies(item, groups, group).push(item)
        } else {
            assemble::copies(item, groups, group)
        },
        assemble::copies(item, Seq::empty(), group).len() == 0,
{
    reveal(Seq::filter);
    let all = groups.push(more);
    assert(all.drop_last() =~= groups);
    assert(all.last() == more);
    let before = assemble::copies(item, groups, group);
    if more == group {
        assert(assemble::copies(item, all, group) =~= before.push(item));
    } else {
        assert(assemble::copies(item, all, group) =~= before);
    }
}

/// A candidate is in a group once for each time it names that group.
pub proof fn law_each_mention_of_a_group_counts(
    c: CandidateView,
    i: InputView,
    groups: Seq<Seq<char>>,
    group: Seq<char>,
    cands: Seq<CandidateView>,
    inputs: Seq<InputView>,
)
    ensures
        assemble::copies(c, groups.push(group), group) == assemble::copies(c, groups, group).push(c),
        forall|other: Seq<char>|
            other != group ==> #[trigger] assemble::copies(c, groups.push(other), group)
                == assemble::copies(c, groups, group),
        assemble::copies(c, Seq::empty(), group).len() == 0,
        assemble::candidates_in(cands.push(c), group) == assemble::candidates_in(cands, group)
            + assemble::copies(c, c.groups, group),
        assemble::inputs_in(inputs.push(i), group) == assemble::inputs_in(inputs, group)
            + assemble::copies(i, i.groups, group),
        assemble::candidates_in(Seq::empty(), group).len() == 0,
        assemble::inputs_in(Seq::empty(), group).len() == 0,
{
    lemma_copies(c, groups, group, group);
    assert forall|other: Seq<char>| other != group implies #[trigger] assemble::copies(
        c,
        groups.push(other),
        group,
    ) == assemble::copies(c, groups, group) by {
        lemma_copies(c, groups, other, group);
    }
    assert(cands.push(c).drop_last() =~= cands);
    assert(inputs.push(i).drop_last() =~= inputs);
}

/// A name is told apart by what follows an `@`, and by nothing where there is
/// nothing to follow it.
pub proof fn law_what_tells_a_name_apart(name: Seq<char>, suffix: Seq<char>)
    ensures
        suffix.len() > 0 ==> resolve::suffixed(name, suffix) == name + seq!['@'] + suffix,
        suffix.len() == 0 ==> resolve::suffixed(name, suffix) == name,
{
    reveal_strlit("@");
    assert("@"@ =~= seq!['@']);
}

/// Exactly when an input is complained of as registered again: where the one
/// held when it arrives, the first with the highest version numbers of those of
/// its type and name, is from the same crate and has the same numbers.
pub proof fn law_when_an_input_counts_as_registered_again(ni: Seq<NamedView<InputView>>, p: int)
    requires
        0 <= p < ni.len(),
    ensures
        lane::is_duplicate_input(ni, p) <==> exists|q: int|
            0 <= q < p && (#[trigger] ni[q]).reg.ty_name == ni[p].reg.ty_name && ni[q].reg.name
                == ni[p].reg.name && ni[q].origin.crate_name == ni[p].origin.crate_name
                && version::version_of(ni[q].origin.crate_version) == version::version_of(
                ni[p].origin.crate_version,
            ) && forall|r: int|
                0 <= r < p && (#[trigger] ni[r]).reg.ty_name == ni[p].reg.ty_name && ni[r].reg.name
                    == ni[p].reg.name ==> {
                    let a = version::version_of(ni[r].origin.crate_version);
                    let b = version::version_of(ni[q].origin.crate_version);
                    a.0 < b.0 || (a.0 == b.0 && (a.1 < b.1 || (a.1 == b.1 && (a.2 < b.2 || (a.2
                        == b.2 && q <= r)))))
                },
{
    let held = |q: int|
        0 <= q < p && ni[q].reg.ty_name == ni[p].reg.ty_name && ni[q].reg.name == ni[p].reg.name
            && forall|r: int|
            0 <= r < p && (#[trigger] ni[r]).reg.ty_name == ni[p].reg.ty_name && ni[r].reg.name
                == ni[p].reg.name ==> {
                let a = version::version_of(ni[r].origin.crate_version);
                let b = version::version_of(ni[q].origin.crate_version);
                a.0 < b.0 || (a.0 == b.0 && (a.1 < b.1 || (a.1 == b.1 && (a.2 < b.2 || (a.2 == b.2
                    && q <= r)))))
            };
    assert forall|q: int| lane::held_before(ni, q, p) implies #[trigger] held(q) by {
        assert forall|r: int|
            0 <= r < p && (#[trigger] ni[r]).reg.ty_name == ni[p].reg.ty_name && ni[r].reg.name
                == ni[p].reg.name implies {
            let a = version::version_of(ni[r].origin.crate_version);
            let b = version::version_of(ni[q].origin.crate_version);
            a.0 < b.0 || (a.0 == b.0 && (a.1 < b.1 || (a.1 == b.1 && (a.2 < b.2 || (a.2 == b.2 && q
                <= r)))))
        } by {
            assert(lane::same_input(ni[r], ni[p]));
        }
    }
    assert forall|q: int| #[trigger] held(q) implies lane::held_before(ni, q, p) by {}
    if lane::is_duplicate_input(ni, p) {
        let q = choose|q: int| #[trigger]
            lane::held_before(ni, q, p) && ni[q].origin.crate_name == ni[p].origin.crate_name
                && ni[q].origin.numbers() == ni[p].origin.numbers();
        assert(held(q));
        assert(ni[q].reg.ty_name == ni[p].reg.ty_name);
    }
    assert forall|q: int|
        0 <= q < p && (#[trigger] ni[q]).reg.ty_name == ni[p].reg.ty_name && ni[q].reg.name
            == ni[p].reg.name && ni[q].origin.crate_name == ni[p].origin.crate_name
            && version::version_of(ni[q].origin.crate_version) == version::version_of(
            ni[p].origin.crate_version,
        ) && (forall|r: int|
            0 <= r < p && (#[trigger] ni[r]).reg.ty_name == ni[p].reg.ty_name && ni[r].reg.name
                == ni[p].reg.name ==> {
                let a = version::version_of(ni[r].origin.crate_version);
                let b = version::version_of(ni[q].origin.crate_version);
                a.0 < b.0 || (a.0 == b.0 && (a.1 < b.1 || (a.1 == b.1 && (a.2 < b.2 || (a.2 == b.2
                    && q <= r)))))
            }) implies lane::is_duplicate_input(ni, p) by {
        assert(held(q));
        assert(lane::held_before(ni, q, p));
    }
}

} // verus!
