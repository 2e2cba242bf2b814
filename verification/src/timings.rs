//! What measuring a group of alternatives came to.

use crate::layout;
use crate::sampling::Finished;
use crate::text;
use vstd::prelude::*;

verus! {

/// What one alternative measured.
///
/// `measured` is whatever the measuring side keeps of the numbers themselves;
/// nothing here looks inside it.
#[derive(Debug, Clone, Copy, PartialEq, Eq)]
pub struct Timing<M> {
    /// The numbers measured.
    pub measured: M,
    /// How often the benchmark ran.
    pub iterations: u64,
    /// How many samples were taken.
    pub samples: usize,
    /// Whether the run ended before it was as precise as asked.
    pub hit_limit: bool,
    /// Whether there are too few samples for the error itself to be believed.
    pub untrustworthy: bool,
    /// Whether it differs from the baseline, where there is one to differ
    /// from.
    pub changed: Option<bool>,
}

impl<M> Timing<M> {
    /// Whether this measured differently from its baseline.
    pub fn is_changed(&self) -> (changed: bool)
        ensures
            changed == (self.changed == Some(true)),
    {
        match self.changed {
            Some(changed) => changed,
            None => false,
        }
    }
}

/// What one alternative measured in a run, beside what the run says of itself.
pub open spec fn in_run<M>(measured: M, changed: Option<bool>, run: Finished) -> Timing<M> {
    Timing {
        measured,
        iterations: run.iterations,
        samples: run.samples,
        hit_limit: run.hit_limit,
        untrustworthy: run.untrustworthy,
        changed,
    }
}

/// What a group of alternatives measured: a [`Timing`] for each, the baseline
/// first.
#[derive(Debug, Clone)]
pub struct Timings<M> {
    names: Vec<String>,
    timings: Vec<Timing<M>>,
}

/// The values of a [`Timings`].
#[verifier::ext_equal]
pub struct TimingsView<M> {
    pub names: Seq<Seq<char>>,
    pub timings: Seq<Timing<M>>,
}

impl<M> View for Timings<M> {
    type V = TimingsView<M>;

    closed spec fn view(&self) -> TimingsView<M> {
        TimingsView { names: text::strings(self.names@), timings: self.timings@ }
    }
}

/// Names paired with what they name.
pub open spec fn pairs<T>(v: Seq<(&str, &T)>) -> Seq<(Seq<char>, T)> {
    Seq::new(v.len(), |i: int| (v[i].0@, *v[i].1))
}

impl<M> TimingsView<M> {
    /// What one run came to: each alternative's own numbers, and the run's.
    pub open spec fn of_run(
        names: Seq<Seq<char>>,
        measured: Seq<M>,
        changed: Seq<Option<bool>>,
        run: Finished,
    ) -> TimingsView<M> {
        TimingsView {
            names,
            timings: Seq::new(names.len(), |i: int| in_run(measured[i], changed[i], run)),
        }
    }

    /// Whether there is a baseline, and a name for every timing.
    pub open spec fn well_formed(self) -> bool {
        self.names.len() == self.timings.len() && self.names.len() > 0
    }

    /// Each alternative beyond the baseline.
    pub open spec fn beyond_baseline(self) -> Seq<(Seq<char>, Timing<M>)> {
        Seq::new(
            (self.timings.len() - 1) as nat,
            |i: int| (self.names[i + 1], self.timings[i + 1]),
        )
    }

    /// Whether alternative `i` is one that differs from the baseline.
    pub open spec fn differs(self, i: int) -> bool {
        0 < i < self.timings.len() && self.timings[i].changed == Some(true)
    }

    /// One line of the block that shows the alternatives, from how each shows
    /// itself and its measurement.
    pub open spec fn line(self, shown: Seq<Seq<char>>, measurements: Seq<Seq<char>>, i: int) -> Seq<
        char,
    > {
        let label = layout::left(self.names[i], layout::widest(self.names)) + "  "@;
        if i == 0 {
            label + shown[0] + "  (baseline)\n"@
        } else {
            label + measurements[i] + "  "@ + shown[i] + "\n"@
        }
    }

    /// The first `n` lines of that block.
    pub open spec fn block(
        self,
        shown: Seq<Seq<char>>,
        measurements: Seq<Seq<char>>,
        n: int,
    ) -> Seq<char>
        decreases n,
    {
        if n <= 0 {
            Seq::empty()
        } else {
            self.block(shown, measurements, n - 1) + self.line(shown, measurements, n - 1)
        }
    }
}

impl<M> Timings<M> {
    /// Gather what each alternative measured, the baseline first.
    pub fn new(names: Vec<String>, timings: Vec<Timing<M>>) -> (t: Timings<M>)
        requires
            names@.len() == timings@.len(),
            names@.len() > 0,
        ensures
            t@ == (TimingsView { names: text::strings(names@), timings: timings@ }),
            t@.well_formed(),
    {
        Timings { names, timings }
    }

    /// Gather what each alternative measured in one run, the baseline first.
    ///
    /// The alternatives are sampled in the same rounds, so what the run says
    /// of itself it says of all of them.
    pub fn of_run(
        names: Vec<String>,
        measured: Vec<M>,
        changed: Vec<Option<bool>>,
        run: Finished,
    ) -> (t: Timings<M>)
        requires
            names@.len() > 0,
            measured@.len() == names@.len(),
            changed@.len() == names@.len(),
        ensures
            t@ == TimingsView::of_run(text::strings(names@), measured@, changed@, run),
            t@.well_formed(),
    {
        let ghost all = measured@;
        let n: usize = measured.len();
        let mut rest = measured;
        let mut timings: Vec<Timing<M>> = Vec::new();
        let mut i: usize = 0;
        assert(all.skip(0) =~= all);
        while i < n
            invariant
                i <= n,
                n == all.len(),
                changed@.len() == n,
                rest@ == all.skip(i as int),
                timings@.len() == i,
                forall|k: int|
                    0 <= k < i ==> #[trigger] timings@[k] == in_run(all[k], changed@[k], run),
            decreases n - i,
        {
            let m = rest.remove(0);
            assert(rest@ =~= all.skip(i + 1));
            timings.push(
                Timing {
                    measured: m,
                    iterations: run.iterations,
                    samples: run.samples,
                    hit_limit: run.hit_limit,
                    untrustworthy: run.untrustworthy,
                    changed: changed[i],
                },
            );
            i += 1;
        }
        let t = Timings { names, timings };
        assert(t@ =~= TimingsView::of_run(text::strings(names@), all, changed@, run));
        t
    }

    /// The name of the baseline, which is the first alternative added.
    pub fn baseline_name(&self) -> (name: &str)
        requires
            self@.well_formed(),
        ensures
            name@ == self@.names[0],
    {
        self.names[0].as_str()
    }

    /// Every alternative's name, the baseline first.
    pub fn names(&self) -> (names: Vec<&str>)
        ensures
            text::texts(names@) == self@.names,
    {
        text::borrowed(&self.names)
    }

    /// What each alternative measured, the baseline first.
    pub fn timings(&self) -> (timings: &[Timing<M>])
        ensures
            timings@ == self@.timings,
    {
        self.timings.as_slice()
    }

    /// What each alternative measured, the baseline first.
    pub fn stats(&self) -> (timings: &[Timing<M>])
        ensures
            timings@ == self@.timings,
    {
        self.timings()
    }

    /// How many alternatives there are.
    pub fn len(&self) -> (n: usize)
        ensures
            n == self@.timings.len(),
    {
        self.timings.len()
    }

    /// The name of one alternative.
    pub fn name(&self, i: usize) -> (name: &str)
        requires
            i < self@.names.len(),
        ensures
            name@ == self@.names[i as int],
    {
        self.names[i].as_str()
    }

    /// What one alternative measured.
    pub fn timing(&self, i: usize) -> (timing: &Timing<M>)
        requires
            i < self@.timings.len(),
        ensures
            *timing == self@.timings[i as int],
    {
        &self.timings[i]
    }

    /// Each alternative beyond the baseline, with its name.
    pub fn against_baseline(&self) -> (out: Vec<(&str, &Timing<M>)>)
        requires
            self@.well_formed(),
        ensures
            pairs(out@) == self@.beyond_baseline(),
    {
        let mut out: Vec<(&str, &Timing<M>)> = Vec::new();
        let mut i: usize = 1;
        while i < self.timings.len()
            invariant
                self@.well_formed(),
                1 <= i <= self.timings.len(),
                out@.len() == i - 1,
                forall|k: int|
                    0 <= k < i - 1 ==> (#[trigger] out@[k]).0@ == self@.names[k + 1] && *out@[k].1
                        == self@.timings[k + 1],
            decreases self.timings.len() - i,
        {
            out.push((self.names[i].as_str(), &self.timings[i]));
            i += 1;
        }
        assert(pairs(out@) =~= self@.beyond_baseline());
        out
    }

    /// Whether any alternative differed from the baseline.
    pub fn any_changed(&self) -> (changed: bool)
        requires
            self@.well_formed(),
        ensures
            changed == exists|i: int| #[trigger] self@.differs(i),
    {
        let mut i: usize = 1;
        while i < self.timings.len()
            invariant
                self@.well_formed(),
                1 <= i <= self.timings.len(),
                forall|k: int| 0 < k < i ==> !#[trigger] self@.differs(k),
            decreases self.timings.len() - i,
        {
            if self.timings[i].is_changed() {
                assert(self@.differs(i as int));
                return true;
            }
            i += 1;
        }
        false
    }

    /// The alternatives as a block of lines, from how each shows itself and
    /// its measurement.
    pub fn render(&self, shown: &Vec<String>, measurements: &Vec<String>) -> (out: String)
        requires
            self@.well_formed(),
            shown@.len() == self@.timings.len(),
            measurements@.len() == self@.timings.len(),
        ensures
            out@ == self@.block(
                text::strings(shown@),
                text::strings(measurements@),
                self@.timings.len() as int,
            ),
    {
        let width: usize = layout::widest_of(&text::borrowed(&self.names));
        let ghost s = text::strings(shown@);
        let ghost m = text::strings(measurements@);
        let mut out = String::new();
        let mut i: usize = 0;
        while i < self.names.len()
            invariant
                self@.well_formed(),
                i <= self.names.len(),
                self@.names == text::strings(self.names@),
                shown@.len() == self@.timings.len(),
                measurements@.len() == self@.timings.len(),
                s == text::strings(shown@),
                m == text::strings(measurements@),
                width == layout::widest(self@.names),
                out@ == self@.block(s, m, i as int),
            decreases self.names.len() - i,
        {
            let ghost before = out@;
            layout::append_left(&mut out, self.names[i].as_str(), width);
            out.append("  ");
            if i == 0 {
                out.append(shown[0].as_str());
                out.append("  (baseline)\n");
            } else {
                out.append(measurements[i].as_str());
                out.append("  ");
                out.append(shown[i].as_str());
                out.append("\n");
            }
            assert(out@ =~= before + self@.line(s, m, i as int));
            i += 1;
        }
        out
    }
}

/// Alternatives of one run agree on how often they ran, how many samples were
/// taken, and how the run ended.
pub proof fn law_a_run_is_one_for_all<M>(
    names: Seq<Seq<char>>,
    measured: Seq<M>,
    changed: Seq<Option<bool>>,
    run: Finished,
    i: int,
    j: int,
)
    requires
        0 <= i < names.len(),
        0 <= j < names.len(),
    ensures
        ({
            let t = TimingsView::of_run(names, measured, changed, run).timings;
            &&& t[i].iterations == t[j].iterations
            &&& t[i].samples == t[j].samples
            &&& t[i].hit_limit == t[j].hit_limit
            &&& t[i].untrustworthy == t[j].untrustworthy
        }),
{
}

} // verus!
