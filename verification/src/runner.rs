//! What a benchmark binary does with what was registered in it.
//!
//! Results go to standard output and everything else to standard error: how
//! many benchmarks are about to run, warnings about registrations that went
//! unused, the reason a run measured nothing.

pub use crate::diagnostic::Diagnostic;

use crate::diagnostic;
use crate::diagnostic::DiagnosticView;
use crate::filter::{Filter, FilterView};
use crate::lane;
use crate::lists;
use crate::order;
use crate::registry::{Candidate, Input, Registered};
use crate::resolve;
use crate::suite;
use crate::suite::{Assembled, AssembledView, Entry, EntryView, Work, WorkView};
use crate::text;
use vstd::prelude::*;

verus! {

/// How to print the results.
#[derive(Debug, Clone, Copy, PartialEq, Eq, Structural)]
pub enum Format {
    /// A group with several inputs as a grid, everything else as one line
    /// each.
    Table,
    /// Every entry as one line, grids included.
    ///
    /// A grid gives up precision: a cell shows a time and a percentage, where
    /// the line shows the error bar on both.
    List,
}

impl Default for Format {
    fn default() -> (f: Format)
        ensures
            f == Format::Table,
    {
        Format::Table
    }
}

/// What to run, and how to print it.
#[derive(Debug, Clone, PartialEq, Eq)]
pub struct Options {
    /// Which of the registered benchmarks to measure.
    pub filter: Filter,
    /// How to print what they measured.
    pub format: Format,
}

impl Default for Options {
    fn default() -> (o: Options)
        ensures
            o.filter@ == FilterView::everything(),
            o.format == Format::Table,
    {
        Options { filter: Filter::everything(), format: Format::default() }
    }
}

/// What a run came to.
#[derive(Debug, Clone, Copy, PartialEq, Eq, Structural)]
pub enum Outcome {
    /// What was asked for was measured.
    Measured,
    /// The run never started: the registrations contradict each other.
    NotRun,
}

impl Outcome {
    /// The status a benchmark binary exits with.
    pub fn exit_code(&self) -> (code: u8)
        ensures
            code == match *self {
                Outcome::Measured => 0,
                Outcome::NotRun => 2u8,
            },
    {
        match self {
            Outcome::Measured => 0,
            Outcome::NotRun => 2,
        }
    }
}

/// What to do with a set of registrations that checked out.
#[derive(Debug, Clone, PartialEq, Eq)]
pub enum Decision {
    /// Measure nothing, and say why.
    Nothing(String),
    /// Measure nothing, and print what would be measured.
    Listing(String),
    /// Measure these of the entries, in order.
    Measure(Vec<usize>),
}

/// The values of a [`Decision`].
#[verifier::ext_equal]
pub enum DecisionView {
    Nothing(Seq<char>),
    Listing(Seq<char>),
    Measure(Seq<int>),
}

impl View for Decision {
    type V = DecisionView;

    open spec fn view(&self) -> DecisionView {
        match *self {
            Decision::Nothing(s) => DecisionView::Nothing(s@),
            Decision::Listing(s) => DecisionView::Listing(s@),
            Decision::Measure(k) => DecisionView::Measure(order::ints(k@)),
        }
    }
}

/// Why a run measured nothing.
pub open spec fn nothing_text(registered: nat) -> Seq<char> {
    if registered == 0 {
        "no benchmarks are registered in this binary.\nNothing carrying #[scaling::bench] or its siblings was linked in - check that the code holding them is compiled into this target, and that any #[cfg] written above the attribute is enabled here."@
    } else {
        "no measurements were produced from the "@ + text::decimal(registered)
            + " registered benchmarks"@
    }
}

/// Why a run measured nothing, which is nearly always one of two things: a
/// module that was not compiled into this binary registers nothing and says
/// nothing about it, or nothing registered was asked for.
pub fn nothing_to_run(registered: usize) -> (out: String)
    ensures
        out@ == nothing_text(registered as nat),
{
    if registered == 0 {
        "no benchmarks are registered in this binary.\nNothing carrying #[scaling::bench] or its siblings was linked in - check that the code holding them is compiled into this target, and that any #[cfg] written above the attribute is enabled here.".to_owned()
    } else {
        let mut out = "no measurements were produced from the ".to_owned();
        text::append_number(&mut out, registered as u64);
        out.append(" registered benchmarks");
        out
    }
}

/// The note that measuring is about to begin.
pub fn measuring_note(benchmarks: usize) -> (out: String)
    ensures
        out@ == "measuring "@ + text::decimal(benchmarks as nat) + if benchmarks == 1 {
            " benchmark"@
        } else {
            " benchmarks"@
        },
{
    let mut out = "measuring ".to_owned();
    text::append_number(&mut out, benchmarks as u64);
    if benchmarks == 1 {
        out.append(" benchmark");
    } else {
        out.append(" benchmarks");
    }
    out
}

/// One line for each problem.
pub open spec fn problem_lines(problems: Seq<DiagnosticView>) -> Seq<char> {
    lists::gathered(problems, |d: DiagnosticView| "\n  - "@ + d.sentence())
}

/// Why the registrations cannot be run: every reason at once, so that mending
/// them does not take a rebuild for each mistake.
pub fn refusal(problems: &Vec<Diagnostic>) -> (out: String)
    ensures
        out@ == "registered benchmarks do not make sense together:"@ + problem_lines(
            diagnostic::diagnostic_views(problems@),
        ),
{
    let ghost all = diagnostic::diagnostic_views(problems@);
    let ghost line = |d: DiagnosticView| "\n  - "@ + d.sentence();
    let ghost head = "registered benchmarks do not make sense together:"@;
    let mut out = "registered benchmarks do not make sense together:".to_owned();
    let mut i: usize = 0;
    assert(lists::gathered(all.take(0), line) =~= Seq::empty());
    assert(out@ =~= head + lists::gathered(all.take(0), line));
    while i < problems.len()
        invariant
            i <= problems.len(),
            all == diagnostic::diagnostic_views(problems@),
            line == (|d: DiagnosticView| "\n  - "@ + d.sentence()),
            out@ == head + lists::gathered(all.take(i as int), line),
        decreases problems.len() - i,
    {
        proof {
            lists::lemma_gathered_step(all, line, i as int);
        }
        let ghost before = out@;
        let said = problems[i].message();
        out.append("\n  - ");
        out.append(said.as_str());
        assert(out@ =~= before + ("\n  - "@ + all[i as int].sentence()));
        assert(out@ =~= head + lists::gathered(all.take(i + 1), line));
        i += 1;
    }
    assert(all.take(i as int) =~= all);
    out
}

/// The line that warns of one problem.
pub fn warning(problem: &Diagnostic) -> (out: String)
    ensures
        out@ == "warning: "@ + problem@.sentence(),
{
    let mut out = "warning: ".to_owned();
    out.append(problem.message().as_str());
    out
}

/// The names of alternatives.
pub open spec fn names_in(alternatives: Seq<(Seq<char>, usize)>) -> Seq<Seq<char>> {
    Seq::new(alternatives.len(), |i: int| alternatives[i].0)
}

/// How one entry is listed: by name, and with what it compares where it
/// compares anything. A comparison reaches the report under one name, and
/// nothing else says what is in it.
pub open spec fn listed(e: EntryView) -> Seq<char> {
    match e.work {
        WorkView::Cell(_, alternatives) if alternatives.len() > 1 => e.name + ": "@ + text::joined(
            names_in(alternatives),
            ", "@,
        ),
        _ => e.name,
    }
}

/// The listing of the entries at some positions, a line for each.
pub open spec fn listing(entries: Seq<EntryView>, kept: Seq<int>) -> Seq<char> {
    text::joined(Seq::new(kept.len(), |i: int| listed(entries[kept[i]])), "\n"@)
}

/// List one entry.
fn list_entry(e: &Entry) -> (out: String)
    ensures
        out@ == listed(e@),
{
    let mut out = e.name.as_str().to_owned();
    match &e.work {
        Work::Flat(_) => {},
        Work::Cell(_, alternatives) => {
            if alternatives.len() > 1 {
                let ghost all = names_in(suite::alternative_views(alternatives@));
                let mut names: Vec<String> = Vec::new();
                let mut i: usize = 0;
                while i < alternatives.len()
                    invariant
                        i <= alternatives.len(),
                        all == names_in(suite::alternative_views(alternatives@)),
                        text::strings(names@) =~= all.take(i as int),
                    decreases alternatives.len() - i,
                {
                    let ghost had = text::strings(names@);
                    let name = alternatives[i].0.as_str().to_owned();
                    names.push(name);
                    assert(text::strings(names@) =~= had.push(all[i as int]));
                    i += 1;
                }
                assert(all.take(i as int) =~= all);
                out.append(": ");
                out.append(text::join(&names, ", ").as_str());
            }
        },
    }
    out
}

/// What to do with a set of registrations that checked out.
pub open spec fn decision(a: AssembledView, f: FilterView) -> DecisionView {
    let kept = suite::kept(a.entries, f);
    if kept.len() == 0 {
        DecisionView::Nothing(nothing_text(a.entries.len()))
    } else if f.list {
        DecisionView::Listing(listing(a.entries, kept))
    } else {
        DecisionView::Measure(kept)
    }
}

/// Decide what to do with a set of registrations that checked out.
///
/// A filter that matches nothing is a run of nothing, not an error: mistyping
/// a pattern should say so rather than look like a broken build.
pub fn decide(a: &Assembled, filter: &Filter) -> (out: Decision)
    ensures
        out@ == decision(a@, filter@),
{
    let kept = suite::keep(&a.entries, filter);
    let ghost e = suite::entry_views(a.entries@);
    let ghost k = suite::kept(e, filter@);
    assert(kept@.len() == order::ints(kept@).len());
    if kept.len() == 0 {
        return Decision::Nothing(nothing_to_run(a.entries.len()));
    }
    if !filter.is_listing() {
        return Decision::Measure(kept);
    }
    let ghost all = Seq::new(k.len(), |i: int| listed(e[k[i]]));
    let mut lines: Vec<String> = Vec::new();
    let mut i: usize = 0;
    while i < kept.len()
        invariant
            i <= kept.len(),
            e == suite::entry_views(a.entries@),
            k == order::ints(kept@),
            forall|j: int| 0 <= j < kept@.len() ==> #[trigger] kept@[j] < a.entries@.len(),
            all == Seq::new(k.len(), |i: int| listed(e[k[i]])),
            text::strings(lines@) =~= all.take(i as int),
        decreases kept.len() - i,
    {
        let ghost had = text::strings(lines@);
        let p: usize = kept[i];
        lines.push(list_entry(&a.entries[p]));
        assert(k[i as int] == p as int);
        assert(text::strings(lines@) =~= had.push(all[i as int]));
        i += 1;
    }
    assert(all.take(i as int) =~= all);
    Decision::Listing(text::join(&lines, "\n"))
}

/// The values of a run that was prepared.
pub open spec fn prepared_view(r: Result<(Assembled, Decision), Vec<Diagnostic>>) -> Result<
    (AssembledView, DecisionView),
    Seq<DiagnosticView>,
> {
    match r {
        Ok((a, d)) => Ok((a@, d@)),
        Err(d) => Err(diagnostic::diagnostic_views(d@)),
    }
}

/// Check everything registered, and decide what to do with it.
pub fn prepare(
    regs: &[&'static Registered],
    cands: &[&'static Candidate],
    inputs: &[&'static Input],
    options: &Options,
) -> (out: Result<(Assembled, Decision), Vec<Diagnostic>>)
    ensures
        prepared_view(out) == match suite::assembled(
            resolve::reg_views(regs@),
            resolve::reg_views(cands@),
            resolve::reg_views(inputs@),
        ) {
            Ok(a) => Ok((a, decision(a, options.filter@))),
            Err(d) => Err(d),
        },
{
    match suite::assemble_registered(regs, cands, inputs) {
        Ok(a) => {
            let d = decide(&a, &options.filter);
            Ok((a, d))
        },
        Err(problems) => Err(problems),
    }
}

/// Listing measures nothing, whatever else was asked for, and neither does a
/// filter that matches nothing.
pub proof fn law_listing_measures_nothing(a: AssembledView, f: FilterView)
    requires
        f.list || forall|p: int|
            0 <= p < a.entries.len() ==> !f.keeps((#[trigger] a.entries[p]).name),
    ensures
        !(decision(a, f) is Measure),
{
    if !f.list {
        let all = lane::positions(a.entries.len());
        let keeps = |p: int| f.keeps(a.entries[p].name);
        if all.filter(keeps).len() > 0 {
            all.lemma_filter_pred(keeps, 0);
            let p = all.filter(keeps)[0];
            all.lemma_filter_contains_rev(keeps, p);
            assert(0 <= p < a.entries.len());
            assert(!f.keeps(a.entries[p].name));
        }
    }
}

/// What is measured is exactly what the filter keeps: each of those entries,
/// in the order they were assembled, and nothing else.
pub proof fn law_what_is_kept_is_measured(a: AssembledView, f: FilterView, p: int)
    requires
        0 <= p < a.entries.len(),
        decision(a, f) is Measure,
    ensures
        decision(a, f)->Measure_0.contains(p) <==> f.keeps(a.entries[p].name),
        forall|i: int, j: int|
            0 <= i < j < decision(a, f)->Measure_0.len() ==> decision(a, f)->Measure_0[i]
                < decision(a, f)->Measure_0[j],
{
    let all = lane::positions(a.entries.len());
    let keeps = |p: int| f.keeps(a.entries[p].name);
    let kept = all.filter(keeps);
    if keeps(p) {
        all.lemma_filter_contains(keeps, p);
        assert(all[p] == p);
    }
    if kept.contains(p) {
        let k = choose|k: int| 0 <= k < kept.len() && kept[k] == p;
        all.lemma_filter_pred(keeps, k);
    }
    lemma_kept_in_order(all, keeps, all.len() as int);
    assert(all.take(all.len() as int) =~= all);
}

/// Positions that are kept stay in order.
proof fn lemma_kept_in_order(all: Seq<int>, keeps: spec_fn(int) -> bool, n: int)
    requires
        0 <= n <= all.len(),
        forall|i: int| 0 <= i < all.len() ==> #[trigger] all[i] == i,
    ensures
        forall|i: int, j: int|
            0 <= i < j < all.take(n).filter(keeps).len() ==> all.take(n).filter(keeps)[i]
                < all.take(n).filter(keeps)[j],
        forall|i: int|
            0 <= i < all.take(n).filter(keeps).len() ==> #[trigger] all.take(n).filter(keeps)[i]
                < n,
    decreases n,
{
    reveal(Seq::filter);
    if n > 0 {
        lemma_kept_in_order(all, keeps, n - 1);
        lists::lemma_filter_step(all, keeps, n - 1);
    }
}

} // verus!
