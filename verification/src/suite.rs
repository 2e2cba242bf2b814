//! What a suite measures, and what it is called in the report.

use crate::assemble;
use crate::assemble::Plan;
use crate::clock;
use crate::diagnostic;
use crate::diagnostic::{Diagnostic, DiagnosticView};
use crate::filter::{Filter, FilterView};
use crate::lane;
use crate::lane::{Lane, LaneView};
use crate::lists;
use crate::order;
use crate::plan_laws;
use crate::registry::{
    Candidate,
    CandidateView,
    Input,
    InputView,
    Registered,
    RegisteredView,
};
use crate::report::{Found, Report, ReportView};
use crate::resolve;
use crate::resolve::NamedView;
use crate::text;
use vstd::prelude::*;

verus! {

/// The seed of a suite's scheduler.
///
/// A fixed one: what must vary is the order from one round to the next, which
/// it does. Varying it between runs as well would only make a suite harder to
/// reproduce.
pub const SUITE_SEED: u64 = 0x9E37_79B9_7F4A_7C15;

/// What a benchmark that was added runs with.
#[derive(Debug, Clone, Copy, PartialEq, Eq, Structural)]
pub struct Task {
    /// What it may spend, in nanoseconds.
    pub budget: u128,
    /// What distinguishes its random stream from another's.
    pub seed: u64,
}

/// The benchmarks of a suite, gathered before any of them runs.
#[derive(Debug, Clone)]
pub struct Suite {
    names: Vec<String>,
    comparisons: u64,
}

/// The values of a [`Suite`].
#[verifier::ext_equal]
pub struct SuiteView {
    /// What each benchmark is called, in the order they were added.
    pub names: Seq<Seq<char>>,
    /// How many comparisons they make between them.
    pub comparisons: nat,
}

impl View for Suite {
    type V = SuiteView;

    closed spec fn view(&self) -> SuiteView {
        SuiteView { names: text::strings(self.names@), comparisons: self.comparisons as nat }
    }
}

impl Suite {
    /// A suite with nothing in it.
    pub fn new() -> (s: Suite)
        ensures
            s@ == (SuiteView { names: Seq::empty(), comparisons: 0 }),
    {
        let s = Suite { names: Vec::new(), comparisons: 0 };
        assert(s@.names =~= Seq::empty());
        s
    }

    /// How many benchmarks have been added.
    pub fn len(&self) -> (n: usize)
        ensures
            n == self@.names.len(),
    {
        self.names.len()
    }

    /// Whether nothing has been added.
    pub fn is_empty(&self) -> (empty: bool)
        ensures
            empty == (self@.names.len() == 0),
    {
        self.names.len() == 0
    }

    /// How many comparisons the suite makes, which is the family each of them
    /// is judged in.
    pub fn comparisons(&self) -> (n: u64)
        ensures
            n == self@.comparisons,
    {
        self.comparisons
    }

    fn push(&mut self, name: &str)
        ensures
            final(self)@ == (SuiteView { names: old(self)@.names.push(name@), ..old(self)@ }),
    {
        let ghost before = self@.names;
        self.names.push(name.to_owned());
        assert(self@.names =~= before.push(name@));
    }

    /// Add a group of alternatives that share an input.
    ///
    /// Every alternative beyond the baseline is a chance at a false positive,
    /// and so counts towards the family. The count also seeds the group, so
    /// that two in one suite do not draw the same order round after round.
    /// `max_time` is what one alternative may take, and is the group's own:
    /// it is not necessarily the suite's.
    pub fn add_input_group(&mut self, name: &str, alternatives: usize, max_time: u128) -> (
        task: Task)
        requires
            alternatives > 0,
            old(self)@.comparisons + alternatives - 1 <= u64::MAX,
        ensures
            final(self)@ == (SuiteView {
                names: old(self)@.names.push(name@),
                comparisons: (old(self)@.comparisons + alternatives - 1) as nat,
            }),
            task.budget == clock::group_budget(max_time as nat, alternatives as nat),
            task.seed == old(self)@.comparisons + alternatives - 1,
    {
        self.comparisons = self.comparisons + (alternatives as u64 - 1);
        self.push(name);
        Task { budget: clock::budget_for(max_time, alternatives), seed: self.comparisons }
    }

    /// Add a benchmark that stands alone, which is a group of one.
    pub fn add(&mut self, name: &str, max_time: u128) -> (task: Task)
        ensures
            final(self)@ == (SuiteView { names: old(self)@.names.push(name@), ..old(self)@ }),
            task.budget == clock::group_budget(max_time as nat, 1),
            task.seed == old(self)@.comparisons,
    {
        self.add_input_group(name, 1, max_time)
    }

    /// Add a scaling benchmark, which compares nothing.
    pub fn add_scaling(&mut self, name: &str, max_time: u128) -> (task: Task)
        ensures
            final(self)@ == (SuiteView { names: old(self)@.names.push(name@), ..old(self)@ }),
            task.budget == max_time,
            task.seed == old(self)@.comparisons,
    {
        self.push(name);
        Task { budget: max_time, seed: self.comparisons }
    }

    /// Report what was measured, given the results in the order the
    /// benchmarks were added, whatever order they finished in.
    pub fn report<S, M>(self, found: Vec<Found<S, M>>) -> (r: Report<S, M>)
        requires
            found@.len() == self@.names.len(),
        ensures
            r@ == (ReportView { names: self@.names, found: found@ }),
            r@.well_formed(),
    {
        Report::new(self.names, found)
    }
}

/// What it takes to add something that was registered.
#[derive(Debug, Clone, PartialEq, Eq)]
pub enum Work {
    /// A benchmark that stands alone, by the position of the function that
    /// adds it.
    Flat(usize),
    /// A group on one input: the position of the function that makes the
    /// input, and of those that add the alternatives under their names.
    Cell(usize, Vec<(String, usize)>),
}

/// The values of a [`Work`].
#[verifier::ext_equal]
pub enum WorkView {
    Flat(usize),
    Cell(usize, Seq<(Seq<char>, usize)>),
}

/// The values of a list of alternatives.
pub open spec fn alternative_views(v: Seq<(String, usize)>) -> Seq<(Seq<char>, usize)> {
    Seq::new(v.len(), |i: int| (v[i].0@, v[i].1))
}

impl View for Work {
    type V = WorkView;

    open spec fn view(&self) -> WorkView {
        match *self {
            Work::Flat(add) => WorkView::Flat(add),
            Work::Cell(make, alternatives) => WorkView::Cell(
                make,
                alternative_views(alternatives@),
            ),
        }
    }
}

/// One thing to add to a suite, under the name the report shows.
#[derive(Debug, Clone, PartialEq, Eq)]
pub struct Entry {
    pub name: String,
    pub work: Work,
}

/// The values of an [`Entry`].
#[verifier::ext_equal]
pub struct EntryView {
    pub name: Seq<char>,
    pub work: WorkView,
}

impl View for Entry {
    type V = EntryView;

    open spec fn view(&self) -> EntryView {
        EntryView { name: self.name@, work: self.work@ }
    }
}

/// The values of a list of entries.
pub open spec fn entry_views(v: Seq<Entry>) -> Seq<EntryView> {
    Seq::new(v.len(), |i: int| v[i]@)
}

/// The entry of a benchmark that stands alone.
pub open spec fn flat_entry(r: NamedView<RegisteredView>) -> EntryView {
    EntryView { name: r.name, work: WorkView::Flat(r.reg.add) }
}

/// The alternatives of a lane.
pub open spec fn lane_alternatives(l: LaneView) -> Seq<(Seq<char>, usize)> {
    Seq::new(l.candidates.len(), |i: int| (l.candidates[i].name, l.candidates[i].reg.add_alt))
}

/// The entry of input `k` of a lane: one group of all its candidates.
pub open spec fn cell_entry(l: LaneView, k: int) -> EntryView {
    EntryView {
        name: if l.candidates.len() == 1 {
            l.lone_name(l.candidates[0].name, l.inputs[k].name)
        } else {
            l.cell_name(l.inputs[k].name)
        },
        work: WorkView::Cell(l.inputs[k].reg.make, lane_alternatives(l)),
    }
}

/// The entries of a lane, one for each of its inputs.
pub open spec fn cells_of(l: LaneView) -> Seq<EntryView> {
    Seq::new(l.inputs.len(), |k: int| cell_entry(l, k))
}

/// Everything a plan adds to a suite: what stands alone, then the lanes.
pub open spec fn entries_of(plan: assemble::PlanView) -> Seq<EntryView> {
    Seq::new(plan.flat.len(), |i: int| flat_entry(plan.flat[i])) + lists::gathered(
        plan.lanes,
        |l: LaneView| cells_of(l),
    )
}

/// What assembling the registered benchmarks produced.
#[derive(Debug)]
pub struct Assembled {
    /// Things worth saying that do not stop the run.
    pub warnings: Vec<Diagnostic>,
    /// The comparison lanes.
    ///
    /// A lane with several inputs is a grid, recoverable only from here: a
    /// report holds one comparison for each input, which is the right thing
    /// to measure and the wrong shape to read.
    pub lanes: Vec<Lane>,
    /// What to add to the suite, in order.
    pub entries: Vec<Entry>,
}

/// The values of an [`Assembled`].
#[verifier::ext_equal]
pub struct AssembledView {
    pub warnings: Seq<DiagnosticView>,
    pub lanes: Seq<LaneView>,
    pub entries: Seq<EntryView>,
}

impl View for Assembled {
    type V = AssembledView;

    open spec fn view(&self) -> AssembledView {
        AssembledView {
            warnings: diagnostic::diagnostic_views(self.warnings@),
            lanes: lane::lane_views(self.lanes@),
            entries: entry_views(self.entries@),
        }
    }
}

/// The problems that are fatal, or those that are not.
pub open spec fn graver(problems: Seq<DiagnosticView>, fatal: bool) -> Seq<DiagnosticView> {
    problems.filter(|d: DiagnosticView| d.fatal() == fatal)
}

/// What comes of a set of registrations: everything fatal about it, or
/// everything it adds.
pub open spec fn assembled(
    regs: Seq<RegisteredView>,
    cands: Seq<CandidateView>,
    inputs: Seq<InputView>,
) -> Result<AssembledView, Seq<DiagnosticView>> {
    let problems = assemble::problems_of(regs, cands, inputs);
    let plan = assemble::plan_of(regs, cands, inputs);
    if graver(problems, true).len() > 0 {
        Err(graver(problems, true))
    } else {
        Ok(
            AssembledView {
                warnings: graver(problems, false),
                lanes: plan.lanes,
                entries: entries_of(plan),
            },
        )
    }
}

/// The values of the result of assembling.
pub open spec fn assembled_view(r: Result<Assembled, Vec<Diagnostic>>) -> Result<
    AssembledView,
    Seq<DiagnosticView>,
> {
    match r {
        Ok(a) => Ok(a@),
        Err(d) => Err(diagnostic::diagnostic_views(d@)),
    }
}

/// Separate what is fatal from what is not.
fn separate(problems: Vec<Diagnostic>) -> (out: (Vec<Diagnostic>, Vec<Diagnostic>))
    ensures
        diagnostic::diagnostic_views(out.0@) == graver(
            diagnostic::diagnostic_views(problems@),
            true,
        ),
        diagnostic::diagnostic_views(out.1@) == graver(
            diagnostic::diagnostic_views(problems@),
            false,
        ),
{
    let ghost all = diagnostic::diagnostic_views(problems@);
    let ghost grave = |d: DiagnosticView| d.fatal() == true;
    let ghost light = |d: DiagnosticView| d.fatal() == false;
    let mut fatal: Vec<Diagnostic> = Vec::new();
    let mut warnings: Vec<Diagnostic> = Vec::new();
    let mut rest = problems;
    let mut i: usize = 0;
    proof {
        reveal(Seq::filter);
    }
    assert(all.take(0).filter(grave) =~= Seq::empty());
    assert(all.take(0).filter(light) =~= Seq::empty());
    assert(diagnostic::diagnostic_views(fatal@) =~= Seq::empty());
    assert(all.skip(0) =~= all);
    let n: usize = rest.len();
    while i < n
        invariant
            i <= n,
            n == all.len(),
            grave == (|d: DiagnosticView| d.fatal() == true),
            light == (|d: DiagnosticView| d.fatal() == false),
            diagnostic::diagnostic_views(rest@) == all.skip(i as int),
            diagnostic::diagnostic_views(fatal@) == all.take(i as int).filter(grave),
            diagnostic::diagnostic_views(warnings@) == all.take(i as int).filter(light),
        decreases n - i,
    {
        proof {
            lists::lemma_filter_step(all, grave, i as int);
            lists::lemma_filter_step(all, light, i as int);
            assert(rest@.len() == all.skip(i as int).len());
        }
        let ghost had_fatal = diagnostic::diagnostic_views(fatal@);
        let ghost had_warnings = diagnostic::diagnostic_views(warnings@);
        let ghost had_rest = diagnostic::diagnostic_views(rest@);
        let d = rest.remove(0);
        assert(d@ == had_rest[0]);
        assert(d@ == all[i as int]);
        if d.is_fatal() {
            fatal.push(d);
            assert(diagnostic::diagnostic_views(fatal@) =~= had_fatal.push(d@));
        } else {
            warnings.push(d);
            assert(diagnostic::diagnostic_views(warnings@) =~= had_warnings.push(d@));
        }
        assert(diagnostic::diagnostic_views(rest@) =~= all.skip(i + 1)) by {
            assert forall|k: int| 0 <= k < rest@.len() implies #[trigger] rest@[k]@ == all[i + 1
                + k] by {
                assert(rest@[k]@ == had_rest[k + 1]);
            }
        }
        i += 1;
    }
    assert(all.take(i as int) =~= all);
    (fatal, warnings)
}

/// The alternatives of a lane, by name.
fn list_alternatives(l: &Lane) -> (out: Vec<(String, usize)>)
    ensures
        alternative_views(out@) == lane_alternatives(l@),
{
    let ghost all = lane_alternatives(l@);
    let mut out: Vec<(String, usize)> = Vec::new();
    let mut i: usize = 0;
    while i < l.candidates.len()
        invariant
            i <= l.candidates.len(),
            all == lane_alternatives(l@),
            l@.candidates == resolve::named_views(l.candidates@),
            alternative_views(out@) =~= all.take(i as int),
        decreases l.candidates.len() - i,
    {
        let c = &l.candidates[i];
        assert(l@.candidates[i as int] == c@);
        let ghost had = alternative_views(out@);
        let name = c.name.as_str().to_owned();
        let add: usize = c.reg.add_alt;
        out.push((name, add));
        assert(alternative_views(out@) =~= had.push((c@.name, c@.reg.add_alt)));
        i += 1;
    }
    assert(all.take(i as int) =~= all);
    out
}

/// List the entries of a lane after those already listed.
fn list_cells(out: &mut Vec<Entry>, l: &Lane)
    ensures
        entry_views(final(out)@) == entry_views(old(out)@) + cells_of(l@),
{
    let ghost before = entry_views(out@);
    let ghost all = cells_of(l@);
    let mut k: usize = 0;
    assert(before + all.take(0) =~= before);
    while k < l.inputs.len()
        invariant
            k <= l.inputs.len(),
            all == cells_of(l@),
            l@.inputs == resolve::named_views(l.inputs@),
            l@.candidates == resolve::named_views(l.candidates@),
            entry_views(out@) == before + all.take(k as int),
        decreases l.inputs.len() - k,
    {
        let input = &l.inputs[k];
        assert(l@.inputs[k as int] == input@);
        let name = if l.candidates.len() == 1 {
            assert(l@.candidates[0] == l.candidates@[0]@);
            l.flat_name(&l.candidates[0], input)
        } else {
            l.comparison_name(input)
        };
        let make: usize = input.reg.make;
        let e = Entry { name, work: Work::Cell(make, list_alternatives(l)) };
        assert(e@ == cell_entry(l@, k as int));
        let ghost had = entry_views(out@);
        out.push(e);
        assert(entry_views(out@) =~= had.push(e@));
        assert(before + all.take(k + 1) =~= (before + all.take(k as int)).push(all[k as int]));
        k += 1;
    }
    assert(all.take(k as int) =~= all);
}

/// List everything a plan adds to a suite.
fn list_entries(plan: &Plan) -> (out: Vec<Entry>)
    ensures
        entry_views(out@) == entries_of(plan@),
{
    let ghost flat = Seq::new(plan@.flat.len(), |i: int| flat_entry(plan@.flat[i]));
    let ghost cells = |l: LaneView| cells_of(l);
    let mut out: Vec<Entry> = Vec::new();
    let mut i: usize = 0;
    while i < plan.flat.len()
        invariant
            i <= plan.flat.len(),
            flat == Seq::new(plan@.flat.len(), |i: int| flat_entry(plan@.flat[i])),
            plan@.flat == resolve::named_views(plan.flat@),
            entry_views(out@) =~= flat.take(i as int),
        decreases plan.flat.len() - i,
    {
        let r = &plan.flat[i];
        assert(plan@.flat[i as int] == r@);
        let name = r.name.as_str().to_owned();
        let add: usize = r.reg.add;
        let e = Entry { name, work: Work::Flat(add) };
        let ghost had = entry_views(out@);
        out.push(e);
        assert(entry_views(out@) =~= had.push(flat_entry(r@)));
        i += 1;
    }
    assert(flat.take(i as int) =~= flat);
    let mut l: usize = 0;
    assert(flat + lists::gathered(plan@.lanes.take(0), cells) =~= flat);
    while l < plan.lanes.len()
        invariant
            l <= plan.lanes.len(),
            plan@.lanes == lane::lane_views(plan.lanes@),
            cells == (|l: LaneView| cells_of(l)),
            entry_views(out@) == flat + lists::gathered(plan@.lanes.take(l as int), cells),
        decreases plan.lanes.len() - l,
    {
        proof {
            lists::lemma_gathered_step(plan@.lanes, cells, l as int);
        }
        let ghost had = entry_views(out@);
        list_cells(&mut out, &plan.lanes[l]);
        assert(entry_views(out@) =~= flat + (lists::gathered(plan@.lanes.take(l as int), cells)
            + cells_of(plan@.lanes[l as int])));
        l += 1;
    }
    assert(plan@.lanes.take(l as int) =~= plan@.lanes);
    out
}

/// Check everything registered, and say what it adds to a suite.
///
/// A contradiction discards what it is about, so benchmarks that were written
/// would measure nothing: it is an error, and then nothing is added at all. A
/// registration that merely goes unused is a warning. Everything is checked
/// before the first entry is handed out, so a suite is never left holding
/// half of a set that did not check out.
pub fn assemble_registered(
    regs: &[&'static Registered],
    cands: &[&'static Candidate],
    inputs: &[&'static Input],
) -> (out: Result<Assembled, Vec<Diagnostic>>)
    ensures
        assembled_view(out) == assembled(
            resolve::reg_views(regs@),
            resolve::reg_views(cands@),
            resolve::reg_views(inputs@),
        ),
{
    let (plan, problems) = assemble::plan(regs, cands, inputs);
    let (fatal, warnings) = separate(problems);
    assert(fatal@.len() == diagnostic::diagnostic_views(fatal@).len());
    if fatal.len() > 0 {
        return Err(fatal);
    }
    let entries = list_entries(&plan);
    Ok(Assembled { warnings, lanes: plan.lanes, entries })
}

/// The positions of the entries a filter keeps.
pub open spec fn kept(entries: Seq<EntryView>, f: FilterView) -> Seq<int> {
    lane::positions(entries.len()).filter(|p: int| f.keeps(entries[p].name))
}

/// Which of the entries a filter keeps, in order.
///
/// A comparison is kept or dropped whole, since its alternatives are measured
/// in one interleaved round precisely so that their differences are paired.
pub fn keep(entries: &Vec<Entry>, filter: &Filter) -> (out: Vec<usize>)
    ensures
        order::ints(out@) == kept(entry_views(entries@), filter@),
        forall|k: int| 0 <= k < out@.len() ==> #[trigger] out@[k] < entries@.len(),
{
    let ghost e = entry_views(entries@);
    let ghost all = lane::positions(e.len());
    let ghost keeps = |p: int| filter@.keeps(e[p].name);
    let mut out: Vec<usize> = Vec::new();
    let mut i: usize = 0;
    proof {
        reveal(Seq::filter);
    }
    assert(all.take(0).filter(keeps) =~= Seq::empty());
    assert(order::ints(out@) =~= Seq::empty());
    while i < entries.len()
        invariant
            i <= entries.len(),
            e == entry_views(entries@),
            all == lane::positions(e.len()),
            keeps == (|p: int| filter@.keeps(e[p].name)),
            order::ints(out@) == all.take(i as int).filter(keeps),
            forall|k: int| 0 <= k < out@.len() ==> #[trigger] out@[k] < i,
        decreases entries.len() - i,
    {
        proof {
            lists::lemma_filter_step(all, keeps, i as int);
        }
        let ghost had = order::ints(out@);
        if filter.matches(entries[i].name.as_str()) {
            out.push(i);
            assert(order::ints(out@) =~= had.push(i as int));
        }
        i += 1;
    }
    assert(all.take(i as int) =~= all);
    out
}

/// Every entry of a set of registrations has something to measure: each cell
/// holds at least one alternative.
pub proof fn law_every_cell_has_alternatives(
    regs: Seq<RegisteredView>,
    cands: Seq<CandidateView>,
    inputs: Seq<InputView>,
    l: int,
    k: int,
)
    requires
        0 <= l < assemble::plan_of(regs, cands, inputs).lanes.len(),
        0 <= k < assemble::plan_of(regs, cands, inputs).lanes[l].inputs.len(),
    ensures
        cell_entry(assemble::plan_of(regs, cands, inputs).lanes[l], k).work matches WorkView::Cell(
            _,
            alternatives,
        ) && alternatives.len() > 0,
{
    plan_laws::law_lanes_hold_one_type(regs, cands, inputs, l);
}

/// A filter that keeps everything keeps every entry, in order.
pub proof fn law_an_empty_filter_keeps_the_suite(entries: Seq<EntryView>)
    ensures
        kept(entries, FilterView::everything()) == lane::positions(entries.len()),
{
    let all = lane::positions(entries.len());
    let f = FilterView::everything();
    let keeps = |p: int| f.keeps(entries[p].name);
    lists::lemma_all_kept(all, keeps, all.len() as int);
    assert(all.take(all.len() as int) =~= all);
}

} // verus!
