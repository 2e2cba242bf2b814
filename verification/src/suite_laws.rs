//! What holds of every suite, and of every run of one.

use crate::assemble;
use crate::diagnostic::DiagnosticView;
use crate::filter::FilterView;
use crate::invariance;
use crate::lane;
use crate::lane::LaneView;
use crate::lists;
use crate::registry::{CandidateView, InputView, RegisteredView};
use crate::reorder;
use crate::runner;
use crate::runner::DecisionView;
use crate::suite;
use crate::suite::{AssembledView, EntryView, WorkView};
use crate::text;
use crate::text_laws;
use vstd::prelude::*;

verus! {

/// Whether a problem is a remark about something that has no counterpart,
/// which stops nothing.
pub open spec fn is_remark(d: DiagnosticView) -> bool {
    match d {
        DiagnosticView::OrphanCandidate { .. } => true,
        DiagnosticView::OrphanInput { .. } => true,
        DiagnosticView::DuplicateName { .. } => false,
        DiagnosticView::ManyBaselines { .. } => false,
        DiagnosticView::DuplicateMatrixEntry { .. } => false,
        DiagnosticView::MatrixTypeMismatch { .. } => false,
    }
}

/// Registrations are refused exactly where something about them is more than
/// a remark, and then for all of that and nothing else. Otherwise every remark
/// is passed on as a warning.
pub proof fn law_only_contradictions_stop_a_run(
    regs: Seq<RegisteredView>,
    cands: Seq<CandidateView>,
    inputs: Seq<InputView>,
    d: DiagnosticView,
)
    ensures
        ({
            let problems = assemble::problems_of(regs, cands, inputs);
            match suite::assembled(regs, cands, inputs) {
                Err(fatal) => {
                    &&& fatal.len() > 0
                    &&& fatal.contains(d) <==> problems.contains(d) && !is_remark(d)
                },
                Ok(a) => {
                    &&& a.warnings.contains(d) <==> problems.contains(d)
                    &&& problems.contains(d) ==> is_remark(d)
                },
            }
        }),
{
    let problems = assemble::problems_of(regs, cands, inputs);
    let grave = |d: DiagnosticView| d.fatal() == true;
    let light = |d: DiagnosticView| d.fatal() == false;
    reorder::lemma_filter_contains(problems, grave);
    reorder::lemma_filter_contains(problems, light);
    let fatal = suite::graver(problems, true);
    assert(fatal == problems.filter(grave));
    assert(suite::graver(problems, false) == problems.filter(light));
    if fatal.len() == 0 && problems.contains(d) && !is_remark(d) {
        assert(fatal.contains(d));
    }
}

/// What the entry of an input is called: a lone candidate by group, name and
/// input, a comparison by group and input, and the type after it where the
/// lane has to say it. An input without a name is left out.
pub open spec fn called(l: LaneView, input: Seq<char>) -> Seq<char> {
    let on = if input.len() == 0 {
        Seq::empty()
    } else {
        seq!['@'] + input
    };
    if l.candidates.len() == 1 {
        l.group + seq![':', ':'] + l.candidates[0].name + on
    } else if l.needs_type_suffix {
        l.group + on + seq![' ', '('] + l.ty_name + seq![')']
    } else {
        l.group + on
    }
}

/// A plan adds each benchmark that stands alone under its own name, and for
/// each input of a lane one entry with all the lane's candidates, each under its
/// own name and in the lane's order; and it adds nothing else.
pub proof fn law_what_a_plan_adds(plan: assemble::PlanView, e: EntryView)
    ensures
        suite::entries_of(plan).contains(e) <==> {
            ||| exists|i: int|
                0 <= i < plan.flat.len() && e.name == (#[trigger] plan.flat[i]).name && e.work
                    == WorkView::Flat(plan.flat[i].reg.add)
            ||| exists|l: int, k: int|
                #![trigger plan.lanes[l].inputs[k]]
                0 <= l < plan.lanes.len() && 0 <= k < plan.lanes[l].inputs.len() && e.name
                    == called(plan.lanes[l], plan.lanes[l].inputs[k].name) && e.work
                    == WorkView::Cell(
                    plan.lanes[l].inputs[k].reg.make,
                    plan.lanes[l].candidates.map_values(
                        |c: crate::resolve::NamedView<CandidateView>| (c.name, c.reg.add_alt),
                    ),
                )
        },
        forall|i: int|
            0 <= i < plan.flat.len() ==> (#[trigger] suite::entries_of(plan)[i]).name
                == plan.flat[i].name,
{
    let flat = Seq::new(plan.flat.len(), |i: int| suite::flat_entry(plan.flat[i]));
    let f = |l: LaneView| suite::cells_of(l);
    let cells = lists::gathered(plan.lanes, f);
    let all = suite::entries_of(plan);
    let alternative = |c: crate::resolve::NamedView<CandidateView>| (c.name, c.reg.add_alt);
    assert(all == flat + cells);
    invariance::lemma_contains_add(flat, cells, e);
    reorder::lemma_gathered_contains(plan.lanes, f);
    assert forall|l: int, k: int|
        #![trigger plan.lanes[l].inputs[k]]
        0 <= l < plan.lanes.len() && 0 <= k < plan.lanes[l].inputs.len() implies {
        let it = suite::cell_entry(plan.lanes[l], k);
        &&& it.name == called(plan.lanes[l], plan.lanes[l].inputs[k].name)
        &&& it.work == WorkView::Cell(
            plan.lanes[l].inputs[k].reg.make,
            plan.lanes[l].candidates.map_values(alternative),
        )
        &&& cells.contains(it)
    } by {
        lemma_called(plan.lanes[l], plan.lanes[l].inputs[k].name);
        assert(suite::lane_alternatives(plan.lanes[l]) =~= plan.lanes[l].candidates.map_values(
            alternative,
        ));
        assert(suite::cells_of(plan.lanes[l])[k] == suite::cell_entry(plan.lanes[l], k));
        assert(f(plan.lanes[l]).contains(suite::cell_entry(plan.lanes[l], k)));
    }
    if flat.contains(e) {
        let i = choose|i: int| 0 <= i < flat.len() && flat[i] == e;
        assert(e.name == plan.flat[i].name);
    }
    if cells.contains(e) {
        let l = choose|l: int| 0 <= l < plan.lanes.len() && #[trigger] f(plan.lanes[l]).contains(e);
        let it = suite::cells_of(plan.lanes[l]);
        let k = choose|k: int| 0 <= k < it.len() && it[k] == e;
        assert(plan.lanes[l].inputs[k] == plan.lanes[l].inputs[k]);
        assert(e == suite::cell_entry(plan.lanes[l], k));
    }
    assert forall|i: int|
        0 <= i < plan.flat.len() && e.name == (#[trigger] plan.flat[i]).name && e.work
            == WorkView::Flat(plan.flat[i].reg.add) implies flat.contains(e) by {
        assert(flat[i] =~= e);
    }
    assert forall|l: int, k: int|
        #![trigger plan.lanes[l].inputs[k]]
        0 <= l < plan.lanes.len() && 0 <= k < plan.lanes[l].inputs.len() && e.name == called(
            plan.lanes[l],
            plan.lanes[l].inputs[k].name,
        ) && e.work == WorkView::Cell(
            plan.lanes[l].inputs[k].reg.make,
            plan.lanes[l].candidates.map_values(alternative),
        ) implies cells.contains(e) by {
        assert(e =~= suite::cell_entry(plan.lanes[l], k));
    }
}

/// The names of a lane's entries, as they are put together.
proof fn lemma_called(l: LaneView, input: Seq<char>)
    ensures
        l.candidates.len() == 1 ==> l.lone_name(l.candidates[0].name, input) == called(l, input),
        l.candidates.len() != 1 ==> l.cell_name(input) == called(l, input),
{
    reveal_strlit("@");
    reveal_strlit("::");
    reveal_strlit(" (");
    reveal_strlit(")");
    assert("@"@ =~= seq!['@']);
    assert("::"@ =~= seq![':', ':']);
    assert(" ("@ =~= seq![' ', '(']);
    assert(")"@ =~= seq![')']);
    if l.candidates.len() == 1 {
        assert(l.lone_name(l.candidates[0].name, input) =~= called(l, input));
    } else {
        assert(l.cell_name(input) =~= called(l, input));
    }
}

/// Different inputs of a lane have entries of different names.
pub proof fn law_inputs_are_called_apart(l: LaneView, a: Seq<char>, b: Seq<char>)
    requires
        a != b,
    ensures
        l.cell_name(a) != l.cell_name(b),
        forall|c: Seq<char>| #[trigger] l.lone_name(c, a) != l.lone_name(c, b),
{
    let many = LaneView { candidates: Seq::empty(), ..l };
    lemma_called(many, a);
    lemma_called(many, b);
    assert(l.cell_name(a) == called(many, a) && l.cell_name(b) == called(many, b));
    let n = l.group.len() as int;
    let tail = if l.needs_type_suffix {
        seq![' ', '('] + l.ty_name + seq![')']
    } else {
        Seq::empty()
    };
    let on = |x: Seq<char>|
        if x.len() == 0 {
            Seq::empty()
        } else {
            seq!['@'] + x
        };
    assert(on(a) != on(b)) by {
        if a.len() > 0 && b.len() > 0 {
            assert(on(a).skip(1) =~= a);
            assert(on(b).skip(1) =~= b);
        } else {
            assert(a.len() == 0 && b.len() == 0 ==> a =~= b);
        }
    }
    assert(called(many, a) =~= l.group + on(a) + tail);
    assert(called(many, b) =~= l.group + on(b) + tail);
    lemma_same_frame(l.group, on(a), on(b), tail);
    assert forall|c: Seq<char>| #[trigger] l.lone_name(c, a) != l.lone_name(c, b) by {
        reveal_strlit("@");
        reveal_strlit("::");
        assert("@"@ =~= seq!['@']);
        let head = l.group + "::"@ + c;
        let none = Seq::<char>::empty();
        assert(l.lone_name(c, a) =~= head + on(a) + none);
        assert(l.lone_name(c, b) =~= head + on(b) + none);
        lemma_same_frame(head, on(a), on(b), none);
    }
}

/// Two texts in one frame are the same only where they are.
proof fn lemma_same_frame(head: Seq<char>, a: Seq<char>, b: Seq<char>, tail: Seq<char>)
    requires
        a != b,
    ensures
        head + a + tail != head + b + tail,
{
    let (x, y) = (head + a + tail, head + b + tail);
    if x == y {
        let n = head.len() as int;
        assert(x.subrange(n, x.len() - tail.len()) =~= a);
        assert(y.subrange(n, y.len() - tail.len()) =~= b);
    }
}

/// A run measures nothing exactly where the filter keeps no entry; otherwise
/// it lists where it was asked for a list, and measures where it was not.
pub proof fn law_what_a_run_does(a: AssembledView, f: FilterView)
    ensures
        ({
            let any = exists|p: int|
                0 <= p < a.entries.len() && f.keeps((#[trigger] a.entries[p]).name);
            &&& runner::decision(a, f) is Nothing <==> !any
            &&& runner::decision(a, f) is Listing <==> any && f.list
            &&& runner::decision(a, f) is Measure <==> any && !f.list
        }),
{
    let all = lane::positions(a.entries.len());
    let keeps = |p: int| f.keeps(a.entries[p].name);
    let kept = suite::kept(a.entries, f);
    assert(kept == all.filter(keeps));
    reorder::lemma_filter_contains(all, keeps);
    if kept.len() > 0 {
        let p = kept[0];
        assert(all.filter(keeps).contains(p));
        assert(all.contains(p) && keeps(p));
        let i = choose|i: int| 0 <= i < all.len() && all[i] == p;
        assert(f.keeps(a.entries[p].name));
    }
    if exists|p: int| 0 <= p < a.entries.len() && f.keeps((#[trigger] a.entries[p]).name) {
        let p = choose|p: int| 0 <= p < a.entries.len() && f.keeps((#[trigger] a.entries[p]).name);
        assert(all[p] == p);
        assert(all.contains(p) && keeps(p));
        assert(all.filter(keeps).contains(p));
    }
}

/// What is listed of an entry: its name, and behind a colon what it compares,
/// where it compares several.
pub proof fn law_what_is_listed_of_an_entry(name: Seq<char>, make: usize, add: usize)
    ensures
        runner::listed(EntryView { name, work: WorkView::Flat(add) }) == name,
        forall|alternatives: Seq<(Seq<char>, usize)>| #[trigger]
            runner::listed(EntryView { name, work: WorkView::Cell(make, alternatives) })
                == if alternatives.len() > 1 {
                name + seq![':', ' '] + text::joined(
                    alternatives.map_values(|a: (Seq<char>, usize)| a.0),
                    seq![',', ' '],
                )
            } else {
                name
            },
{
    reveal_strlit(": ");
    reveal_strlit(", ");
    assert(": "@ =~= seq![':', ' ']);
    assert(", "@ =~= seq![',', ' ']);
    assert forall|alternatives: Seq<(Seq<char>, usize)>| #[trigger]
        runner::listed(EntryView { name, work: WorkView::Cell(make, alternatives) })
            == if alternatives.len() > 1 {
            name + seq![':', ' '] + text::joined(
                alternatives.map_values(|a: (Seq<char>, usize)| a.0),
                seq![',', ' '],
            )
        } else {
            name
        } by {
        assert(runner::names_in(alternatives) =~= alternatives.map_values(
            |a: (Seq<char>, usize)| a.0,
        ));
    }
}

/// A listing has one line for each entry the filter keeps, in order.
pub proof fn law_a_listing_has_a_line_for_each(entries: Seq<EntryView>, kept: Seq<int>)
    requires
        kept.len() > 0,
        forall|i: int|
            0 <= i < kept.len() ==> !runner::listed(entries[#[trigger] kept[i]]).contains('\n'),
    ensures
        ({
            let lines = text::pieces(runner::listing(entries, kept), '\n');
            &&& lines.len() == kept.len()
            &&& forall|i: int|
                0 <= i < kept.len() ==> #[trigger] lines[i] == runner::listed(entries[kept[i]])
        }),
{
    reveal_strlit("\n");
    assert("\n"@ =~= seq!['\n']);
    let parts = Seq::new(kept.len(), |i: int| runner::listed(entries[kept[i]]));
    assert forall|i: int| 0 <= i < parts.len() implies !(#[trigger] parts[i]).contains('\n') by {
        assert(!runner::listed(entries[kept[i]]).contains('\n'));
    }
    text::lemma_pieces_of_joined(parts, '\n');
}

/// A refusal gives every reason, each on a line of its own.
pub proof fn law_every_reason_is_given(problems: Seq<DiagnosticView>, i: int)
    requires
        0 <= i < problems.len(),
    ensures
        text::has_part(
            runner::problem_lines(problems),
            seq!['\n', ' ', ' ', '-', ' '] + problems[i].sentence(),
        ),
    decreases problems.len(),
{
    let f = |d: DiagnosticView| "\n  - "@ + d.sentence();
    let all = runner::problem_lines(problems);
    reveal_strlit("\n  - ");
    assert("\n  - "@ =~= seq!['\n', ' ', ' ', '-', ' ']);
    let rest = problems.drop_last();
    let before = runner::problem_lines(rest);
    let none = Seq::<char>::empty();
    assert(all == before + f(problems.last()));
    if i == rest.len() {
        assert(all =~= before + f(problems[i]) + none);
        text_laws::law_a_part_stands_between(all, f(problems[i]));
    } else {
        law_every_reason_is_given(rest, i);
        let part = f(problems[i]);
        text_laws::law_a_part_stands_between(before, part);
        let (x, y) = choose|x: Seq<char>, y: Seq<char>| before == #[trigger] (x + part + y);
        let after = y + f(problems.last());
        assert(all =~= x + part + after);
        text_laws::law_a_part_stands_between(all, part);
    }
}

/// A run of nothing says how many benchmarks there were to choose from, and
/// where there were none, that none are registered.
pub proof fn law_why_nothing_was_measured(registered: nat)
    requires
        registered > 0,
    ensures
        text::has_part(
            runner::nothing_text(registered),
            seq![' '] + text::decimal(registered) + seq![' '],
        ),
        text::stands_at(runner::nothing_text(0), "no benchmarks are registered"@, 0),
{
    reveal_strlit("no measurements were produced from the ");
    reveal_strlit(" registered benchmarks");
    reveal_strlit("no benchmarks are registered");
    reveal_strlit(
        "no benchmarks are registered in this binary.\nNothing carrying #[scaling::bench] or its siblings was linked in - check that the code holding them is compiled into this target, and that any #[cfg] written above the attribute is enabled here.",
    );
    let head = "no measurements were produced from the"@;
    reveal_strlit("no measurements were produced from the");
    let tail = "registered benchmarks"@;
    reveal_strlit("registered benchmarks");
    let part = seq![' '] + text::decimal(registered) + seq![' '];
    assert(runner::nothing_text(registered) =~= head + part + tail);
    text_laws::law_a_part_stands_between(runner::nothing_text(registered), part);
    let none = "no benchmarks are registered"@;
    assert(runner::nothing_text(0).subrange(0, none.len() as int) =~= none);
}

} // verus!
