//! One group's candidates and inputs of a single type, paired up.

use crate::diagnostic;
use crate::diagnostic::{Diagnostic, DiagnosticView};
use crate::lists;
use crate::order;
use crate::registry::{Candidate, CandidateView, Input, InputView, UNIT_MAKE, UNIT_TYPE};
use crate::resolve;
use crate::resolve::{KeyView, Named, NamedView};
use crate::text;
use crate::version;
use crate::version::{Origin, OriginView};
use vstd::prelude::*;

verus! {

/// One group's candidates and inputs of a single type, paired up.
///
/// A group partitions into lanes rather than being one grid, because
/// candidates and inputs are registered independently and need not all agree
/// about the type. Pairing within a lane is what lets one group hold several
/// unrelated type families and still be correct.
#[derive(Debug)]
pub struct Lane {
    /// The group this lane belongs to.
    pub group: &'static str,
    /// The input type shared by everything in it, as the source spells it.
    pub ty_name: &'static str,
    /// Candidates, baseline first, then sorted by name.
    pub candidates: Vec<Named<Candidate>>,
    /// Inputs, sorted by name, one per name.
    ///
    /// Unlike candidates, inputs are deduplicated across versions rather than
    /// disambiguated. Two versions of one implementation are the point of a
    /// cross-version comparison; two versions of one input generator are
    /// meant to build the same data.
    ///
    /// A group with candidates but no registered input at all gets a single
    /// entry whose name is empty: the unit input.
    pub inputs: Vec<Named<Input>>,
    /// Whether this lane shares an input name with another lane of the same
    /// group, so that names of its cells have to say the type.
    pub needs_type_suffix: bool,
}

/// The values of a [`Lane`].
#[verifier::ext_equal]
pub struct LaneView {
    pub group: Seq<char>,
    pub ty_name: Seq<char>,
    pub candidates: Seq<NamedView<CandidateView>>,
    pub inputs: Seq<NamedView<InputView>>,
    pub needs_type_suffix: bool,
}

impl View for Lane {
    type V = LaneView;

    open spec fn view(&self) -> LaneView {
        LaneView {
            group: self.group@,
            ty_name: self.ty_name@,
            candidates: resolve::named_views(self.candidates@),
            inputs: resolve::named_views(self.inputs@),
            needs_type_suffix: self.needs_type_suffix,
        }
    }
}

/// The values of a list of lanes.
pub open spec fn lane_views(v: Seq<Lane>) -> Seq<LaneView> {
    Seq::new(v.len(), |i: int| v[i]@)
}

impl LaneView {
    /// What the cell of an input called `input` is called.
    pub open spec fn cell_name(self, input: Seq<char>) -> Seq<char> {
        if input.len() == 0 {
            if self.needs_type_suffix {
                self.group + " ("@ + self.ty_name + ")"@
            } else {
                self.group
            }
        } else if self.needs_type_suffix {
            self.group + "@"@ + input + " ("@ + self.ty_name + ")"@
        } else {
            self.group + "@"@ + input
        }
    }

    /// What a lone candidate is called on an input called `input`.
    pub open spec fn lone_name(self, candidate: Seq<char>, input: Seq<char>) -> Seq<char> {
        if input.len() == 0 {
            self.group + "::"@ + candidate
        } else {
            self.group + "::"@ + candidate + "@"@ + input
        }
    }
}

impl Lane {
    /// What a cell of this lane is called.
    ///
    /// The type is appended only when another lane of this group has an input
    /// of the same name. Without that, `group@small` from one lane collides
    /// with `group@small` from the other.
    pub fn comparison_name(&self, input: &Named<Input>) -> (name: String)
        ensures
            name@ == self@.cell_name(input@.name),
    {
        let mut name = self.group.to_owned();
        if !input.name.as_str().is_empty() {
            name.append("@");
            name.append(input.name.as_str());
        }
        if self.needs_type_suffix {
            name.append(" (");
            name.append(self.ty_name);
            name.append(")");
        }
        name
    }

    /// What the result of a lone candidate is called, which has no baseline
    /// to be compared with.
    pub fn flat_name(&self, candidate: &Named<Candidate>, input: &Named<Input>) -> (name: String)
        ensures
            name@ == self@.lone_name(candidate@.name, input@.name),
    {
        let mut name = self.group.to_owned();
        name.append("::");
        name.append(candidate.name.as_str());
        if !input.name.as_str().is_empty() {
            name.append("@");
            name.append(input.name.as_str());
        }
        name
    }
}

/// What each candidate of `group` is and where it came from.
pub open spec fn candidate_entries(group: Seq<char>, cs: Seq<CandidateView>) -> Seq<
    (KeyView, OriginView),
> {
    Seq::new(
        cs.len(),
        |i: int|
            (
                KeyView { scope: group, ty_name: cs[i].input_type_name, name: cs[i].name },
                OriginView { crate_name: cs[i].crate_name, crate_version: cs[i].crate_version },
            ),
    )
}

/// What each input of `group` is and where it came from.
pub open spec fn input_entries(group: Seq<char>, is: Seq<InputView>) -> Seq<
    (KeyView, OriginView),
> {
    Seq::new(
        is.len(),
        |i: int|
            (
                KeyView { scope: group, ty_name: is[i].ty_name, name: is[i].name },
                OriginView { crate_name: is[i].crate_name, crate_version: is[i].crate_version },
            ),
    )
}

/// Whether two inputs are versions of one input: they agree in type and
/// registered name.
pub open spec fn same_input(a: NamedView<InputView>, b: NamedView<InputView>) -> bool {
    a.reg.ty_name == b.reg.ty_name && a.reg.name == b.reg.name
}

/// Whether input `q` is the one held when input `p` arrives: the newest of
/// its kind so far, the first of those where several are equally new.
pub open spec fn held_before(ni: Seq<NamedView<InputView>>, q: int, p: int) -> bool {
    &&& 0 <= q < p
    &&& same_input(ni[q], ni[p])
    &&& forall|r: int|
        0 <= r < p && same_input(#[trigger] ni[r], ni[p]) ==> !version::older(
            ni[q].origin.numbers(),
            ni[r].origin.numbers(),
        ) && (r < q ==> version::older(ni[r].origin.numbers(), ni[q].origin.numbers()))
}

/// Whether input `p` registers again what is already held: the same crate at
/// the same version.
pub open spec fn is_duplicate_input(ni: Seq<NamedView<InputView>>, p: int) -> bool {
    exists|q: int| #[trigger]
        held_before(ni, q, p) && ni[q].origin.crate_name == ni[p].origin.crate_name
            && ni[q].origin.numbers() == ni[p].origin.numbers()
}

/// Whether input `p` is kept of those of its kind: the newest, the first of
/// those where several are equally new.
pub open spec fn is_newest_input(ni: Seq<NamedView<InputView>>, p: int) -> bool {
    forall|r: int|
        0 <= r < ni.len() && same_input(#[trigger] ni[r], ni[p]) ==> !version::older(
            ni[p].origin.numbers(),
            ni[r].origin.numbers(),
        ) && (r < p ==> version::older(ni[r].origin.numbers(), ni[p].origin.numbers()))
}

/// Whether input `i` comes before input `j`: by type, then registered name,
/// then as they stand.
pub open spec fn input_before(ni: Seq<NamedView<InputView>>, i: int, j: int) -> bool {
    ||| text::text_before(ni[i].reg.ty_name, ni[j].reg.ty_name)
    ||| ni[i].reg.ty_name == ni[j].reg.ty_name && text::text_before(ni[i].reg.name, ni[j].reg.name)
    ||| same_input(ni[i], ni[j]) && i < j
}

/// One input of each kind, the newest, sorted by type and registered name.
pub open spec fn newest_inputs(ni: Seq<NamedView<InputView>>) -> Seq<NamedView<InputView>> {
    lists::picked(
        ni,
        order::arrangement(
            ni.len() as int,
            |p: int| is_newest_input(ni, p),
            |i: int, j: int| input_before(ni, i, j),
        ),
    )
}

/// The positions below `n`.
pub open spec fn positions(n: nat) -> Seq<int> {
    Seq::new(n, |p: int| p)
}

/// The complaint that an entry of a group is registered twice.
pub open spec fn twice(group: Seq<char>, what: Seq<char>, name: Seq<char>) -> DiagnosticView {
    DiagnosticView::DuplicateMatrixEntry { matrix: group, what, name }
}

/// A complaint about every input that registers again what is already held.
pub open spec fn input_duplicates(group: Seq<char>, ni: Seq<NamedView<InputView>>) -> Seq<
    DiagnosticView,
> {
    positions(ni.len()).filter_map(
        |p: int|
            if is_duplicate_input(ni, p) {
                Some(twice(group, "input"@, ni[p].reg.name))
            } else {
                None
            },
    )
}

/// A complaint about every name that several candidates of one lane share,
/// under the name the first of them registered.
pub open spec fn candidate_duplicates(group: Seq<char>, cs: Seq<NamedView<CandidateView>>) -> Seq<
    DiagnosticView,
> {
    lists::distinct_order(lists::names_of(cs)).filter_map(
        |p: int|
            if lists::repeated(lists::names_of(cs), p) {
                Some(twice(group, "candidate"@, cs[p].reg.name))
            } else {
                None
            },
    )
}

/// The input a group with candidates but no declared input takes.
pub open spec fn unit_input_view() -> NamedView<InputView> {
    NamedView {
        name: Seq::empty(),
        reg: InputView {
            groups: Seq::empty(),
            name: Seq::empty(),
            crate_name: Seq::empty(),
            crate_version: Seq::empty(),
            type_id: UNIT_TYPE,
            ty_name: "()"@,
            make: UNIT_MAKE,
        },
        origin: OriginView { crate_name: Seq::empty(), crate_version: Seq::empty() },
    }
}

/// Whether candidate `p` asks to be the baseline.
pub open spec fn claims(cs: Seq<NamedView<CandidateView>>, p: int) -> bool {
    0 <= p < cs.len() && cs[p].reg.is_baseline
}

/// Whether two candidates of one crate at one version both ask to be the
/// baseline.
pub open spec fn contradicts_itself(cs: Seq<NamedView<CandidateView>>) -> bool {
    exists|p: int, q: int|
        #![trigger claims(cs, p), claims(cs, q)]
        p < q && claims(cs, p) && claims(cs, q) && cs[p].origin == cs[q].origin
}

/// Whether `p` is the oldest that asks to be the baseline, the first of those
/// where several are equally old.
pub open spec fn is_oldest_claimant(cs: Seq<NamedView<CandidateView>>, p: int) -> bool {
    claims(cs, p) && forall|q: int| #[trigger]
        claims(cs, q) ==> !version::older(cs[q].origin.numbers(), cs[p].origin.numbers()) && (q < p
            ==> version::older(cs[p].origin.numbers(), cs[q].origin.numbers()))
}

/// Whether entry `a` of a list of positions is the oldest of those listed, the
/// first listed of those where several are equally old.
pub open spec fn is_oldest_listed<V>(cs: Seq<NamedView<V>>, claimants: Seq<int>, a: int) -> bool {
    0 <= a < claimants.len() && forall|b: int|
        0 <= b < claimants.len() ==> !version::older(
            cs[#[trigger] claimants[b]].origin.numbers(),
            cs[claimants[a]].origin.numbers(),
        ) && (b < a ==> version::older(
            cs[claimants[a]].origin.numbers(),
            cs[claimants[b]].origin.numbers(),
        ))
}

/// The name of the baseline: the oldest that asks for it, or the first where
/// none does.
pub open spec fn baseline_name(cs: Seq<NamedView<CandidateView>>) -> Seq<char> {
    if exists|p: int| claims(cs, p) {
        cs[choose|p: int| is_oldest_claimant(cs, p)].name
    } else {
        cs[0].name
    }
}

/// Where a candidate came from and what it is called, for a reader.
pub open spec fn rendered(origin: OriginView, name: Seq<char>) -> Seq<char> {
    origin.crate_name + "@"@ + origin.crate_version + " ("@ + name + ")"@
}

/// A complaint about every input and then every candidate whose type is not
/// that of the first input, though it is spelled alike.
pub open spec fn mismatches(
    group: Seq<char>,
    is: Seq<NamedView<InputView>>,
    cs: Seq<NamedView<CandidateView>>,
) -> Seq<DiagnosticView> {
    let want = is[0].reg.type_id;
    is.filter_map(
        |i: NamedView<InputView>|
            if i.reg.type_id != want {
                Some(
                    DiagnosticView::MatrixTypeMismatch {
                        matrix: group,
                        candidate: i.name,
                        ty_name: i.reg.ty_name,
                    },
                )
            } else {
                None
            },
    ) + cs.filter_map(
        |c: NamedView<CandidateView>|
            if c.reg.input_type != want {
                Some(
                    DiagnosticView::MatrixTypeMismatch {
                        matrix: group,
                        candidate: c.name,
                        ty_name: c.reg.input_type_name,
                    },
                )
            } else {
                None
            },
    )
}

/// A remark about each candidate that nothing feeds.
pub open spec fn orphan_candidates(group: Seq<char>, cs: Seq<NamedView<CandidateView>>) -> Seq<
    DiagnosticView,
> {
    Seq::new(
        cs.len(),
        |i: int|
            DiagnosticView::OrphanCandidate {
                matrix: group,
                name: cs[i].name,
                ty_name: cs[i].reg.input_type_name,
            },
    )
}

/// A remark about each input that nothing takes.
pub open spec fn orphan_inputs(group: Seq<char>, is: Seq<NamedView<InputView>>) -> Seq<
    DiagnosticView,
> {
    Seq::new(
        is.len(),
        |i: int|
            DiagnosticView::OrphanInput {
                matrix: group,
                name: is[i].name,
                ty_name: is[i].reg.ty_name,
            },
    )
}

/// What comes of pairing the candidates and inputs of one type: a lane, or
/// the reasons there is none.
#[verifier::ext_equal]
pub struct Pairing {
    pub lane: Option<LaneView>,
    pub problems: Seq<DiagnosticView>,
}

/// The inputs of a lane: those registered, or the unit input where there are
/// none and the type is `()`.
pub open spec fn inputs_or_unit(ty: Seq<char>, is: Seq<NamedView<InputView>>) -> Seq<
    NamedView<InputView>,
> {
    if is.len() == 0 && ty == "()"@ {
        seq![unit_input_view()]
    } else {
        is
    }
}

/// Pair the candidates and inputs of one type.
pub open spec fn pairing(
    group: Seq<char>,
    ty: Seq<char>,
    cs: Seq<NamedView<CandidateView>>,
    registered: Seq<NamedView<InputView>>,
) -> Pairing {
    let is = inputs_or_unit(ty, registered);
    let sorted = lists::sorted_by_name(cs);
    if is.len() == 0 {
        Pairing { lane: None, problems: orphan_candidates(group, cs) }
    } else if cs.len() == 0 {
        Pairing { lane: None, problems: orphan_inputs(group, is) }
    } else if mismatches(group, is, cs).len() > 0 {
        Pairing { lane: None, problems: mismatches(group, is, cs) }
    } else if contradicts_itself(sorted) {
        Pairing {
            lane: None,
            problems: seq![
                DiagnosticView::ManyBaselines {
                    group,
                    claimants: sorted.filter(
                        |c: NamedView<CandidateView>| c.reg.is_baseline,
                    ).map_values(|c: NamedView<CandidateView>| rendered(c.origin, c.name)),
                },
            ],
        }
    } else {
        Pairing {
            lane: Some(
                LaneView {
                    group,
                    ty_name: ty,
                    candidates: lists::baseline_first(sorted, baseline_name(sorted)),
                    inputs: lists::sorted_by_name(is),
                    needs_type_suffix: false,
                },
            ),
            problems: Seq::empty(),
        }
    }
}

/// Sorting inputs by type and name is a strict total order.
pub proof fn lemma_input_before(ni: Seq<NamedView<InputView>>)
    ensures
        order::strict_order(ni.len() as int, |i: int, j: int| input_before(ni, i, j)),
{
    let before = |i: int, j: int| input_before(ni, i, j);
    let n = ni.len() as int;
    assert forall|i: int| 0 <= i < n implies !#[trigger] before(i, i) by {
        text::lemma_text_irreflexive(ni[i].reg.ty_name);
        text::lemma_text_irreflexive(ni[i].reg.name);
    }
    assert forall|i: int, j: int, k: int|
        #![trigger before(i, j), before(j, k)]
        0 <= i < n && 0 <= j < n && 0 <= k < n && before(i, j) && before(j, k) implies before(
        i,
        k,
    ) by {
        let (ti, tj, tk) = (ni[i].reg.ty_name, ni[j].reg.ty_name, ni[k].reg.ty_name);
        let (mi, mj, mk) = (ni[i].reg.name, ni[j].reg.name, ni[k].reg.name);
        if text::text_before(ti, tj) && text::text_before(tj, tk) {
            text::lemma_text_transitive(ti, tj, tk);
        }
        if text::text_before(mi, mj) && text::text_before(mj, mk) {
            text::lemma_text_transitive(mi, mj, mk);
        }
    }
    assert forall|i: int, j: int|
        #![trigger before(i, j)]
        0 <= i < n && 0 <= j < n && i != j implies before(i, j) || before(j, i) by {
        text::lemma_text_total(ni[i].reg.ty_name, ni[j].reg.ty_name);
        text::lemma_text_total(ni[i].reg.name, ni[j].reg.name);
    }
}

/// Whether two inputs are versions of one input.
fn are_same_input(a: &Named<Input>, b: &Named<Input>) -> (same: bool)
    ensures
        same == same_input(a@, b@),
{
    text::same_text(a.reg.ty_name, b.reg.ty_name) && text::same_text(a.reg.name, b.reg.name)
}

/// Whether the input at `p` is the newest of its kind.
fn newest(ni: &Vec<Named<Input>>, p: usize) -> (kept: bool)
    requires
        p < ni.len(),
    ensures
        kept == is_newest_input(resolve::named_views(ni@), p as int),
{
    let ghost v = resolve::named_views(ni@);
    let mine = ni[p].origin.version();
    let mut r: usize = 0;
    while r < ni.len()
        invariant
            r <= ni.len(),
            p < ni.len(),
            v == resolve::named_views(ni@),
            mine@ == v[p as int].origin.numbers(),
            forall|k: int|
                0 <= k < r && same_input(#[trigger] v[k], v[p as int]) ==> !version::older(
                    v[p as int].origin.numbers(),
                    v[k].origin.numbers(),
                ) && (k < p ==> version::older(
                    v[k].origin.numbers(),
                    v[p as int].origin.numbers(),
                )),
        decreases ni.len() - r,
    {
        if are_same_input(&ni[r], &ni[p]) {
            assert(same_input(v[r as int], v[p as int]));
            let other = ni[r].origin.version();
            if mine.is_older_than(&other) || (r < p && !other.is_older_than(&mine)) {
                return false;
            }
        }
        r += 1;
    }
    true
}

/// The input held when the one at `p` arrives, if there is one.
fn held(ni: &Vec<Named<Input>>, p: usize) -> (at: Option<usize>)
    requires
        p < ni.len(),
    ensures
        match at {
            Some(q) => q < p && held_before(resolve::named_views(ni@), q as int, p as int),
            None => forall|r: int|
                0 <= r < p ==> !same_input(
                    #[trigger] resolve::named_views(ni@)[r],
                    resolve::named_views(ni@)[p as int],
                ),
        },
{
    let ghost v = resolve::named_views(ni@);
    let mut at: Option<usize> = None;
    let mut r: usize = 0;
    while r < p
        invariant
            r <= p < ni.len(),
            v == resolve::named_views(ni@),
            match at {
                Some(q) => {
                    &&& q < r
                    &&& same_input(v[q as int], v[p as int])
                    &&& forall|k: int|
                        0 <= k < r && same_input(#[trigger] v[k], v[p as int]) ==> !version::older(
                            v[q as int].origin.numbers(),
                            v[k].origin.numbers(),
                        ) && (k < q ==> version::older(
                            v[k].origin.numbers(),
                            v[q as int].origin.numbers(),
                        ))
                },
                None => forall|k: int|
                    0 <= k < r ==> !same_input(#[trigger] v[k], v[p as int]),
            },
        decreases p - r,
    {
        if are_same_input(&ni[r], &ni[p]) {
            match at {
                None => {
                    at = Some(r);
                },
                Some(q) => {
                    if ni[q].origin.version().is_older_than(&ni[r].origin.version()) {
                        at = Some(r);
                    }
                },
            }
        }
        r += 1;
    }
    at
}

/// Whether the input at `p` registers again what is already held.
fn registers_again(ni: &Vec<Named<Input>>, p: usize) -> (again: bool)
    requires
        p < ni.len(),
    ensures
        again == is_duplicate_input(resolve::named_views(ni@), p as int),
{
    let ghost v = resolve::named_views(ni@);
    match held(ni, p) {
        None => false,
        Some(q) => {
            let a = ni[q].origin.version();
            let b = ni[p].origin.version();
            let again = text::same_text(ni[q].origin.crate_name, ni[p].origin.crate_name)
                && !a.is_older_than(&b) && !b.is_older_than(&a);
            proof {
                assert(held_before(v, q as int, p as int));
                if is_duplicate_input(v, p as int) {
                    let o = choose|o: int| #[trigger]
                        held_before(v, o, p as int) && v[o].origin.crate_name
                            == v[p as int].origin.crate_name && v[o].origin.numbers()
                            == v[p as int].origin.numbers();
                    assert(same_input(v[o], v[p as int]));
                    assert(same_input(v[q as int], v[p as int]));
                    assert(o == q);
                }
            }
            again
        },
    }
}

/// A complaint about every input that registers again what is already held.
pub fn report_input_duplicates(group: &'static str, ni: &Vec<Named<Input>>) -> (out: Vec<Diagnostic>)
    ensures
        diagnostic::diagnostic_views(out@) == input_duplicates(
            group@,
            resolve::named_views(ni@),
        ),
{
    let ghost v = resolve::named_views(ni@);
    let ghost all = positions(v.len());
    let ghost f = |p: int|
        if is_duplicate_input(v, p) {
            Some(twice(group@, "input"@, v[p].reg.name))
        } else {
            None
        };
    let mut out: Vec<Diagnostic> = Vec::new();
    let mut p: usize = 0;
    assert(all.take(0) =~= Seq::<int>::empty());
    while p < ni.len()
        invariant
            p <= ni.len(),
            v == resolve::named_views(ni@),
            all == positions(v.len()),
            f == (|p: int|
                if is_duplicate_input(v, p) {
                    Some(twice(group@, "input"@, v[p].reg.name))
                } else {
                    None
                }),
            diagnostic::diagnostic_views(out@) == all.take(p as int).filter_map(f),
        decreases ni.len() - p,
    {
        let ghost had = diagnostic::diagnostic_views(out@);
        if registers_again(ni, p) {
            out.push(
                Diagnostic::DuplicateMatrixEntry {
                    matrix: group.to_owned(),
                    what: "input",
                    name: ni[p].reg.name.to_owned(),
                },
            );
            assert(diagnostic::diagnostic_views(out@) =~= had.push(out@.last()@));
        }
        proof {
            lists::lemma_filter_map_step(all, f, p as int);
        }
        p += 1;
    }
    assert(all.take(p as int) =~= all);
    out
}

/// One input of each kind, the newest, sorted by type and registered name.
pub fn keep_newest_inputs(ni: &Vec<Named<Input>>) -> (out: Vec<Named<Input>>)
    ensures
        resolve::named_views(out@) == newest_inputs(resolve::named_views(ni@)),
{
    let ghost v = resolve::named_views(ni@);
    let mut marks: Vec<bool> = Vec::new();
    let mut p: usize = 0;
    while p < ni.len()
        invariant
            p <= ni.len(),
            v == resolve::named_views(ni@),
            marks@.len() == p,
            forall|k: int| 0 <= k < p ==> marks@[k] == is_newest_input(v, k),
        decreases ni.len() - p,
    {
        marks.push(newest(ni, p));
        p += 1;
    }
    let ghost before = |i: int, j: int| input_before(v, i, j);
    proof {
        lemma_input_before(v);
    }
    let comes_before = |i: usize, j: usize| -> (b: bool)
        requires
            ni.len() > i,
            ni.len() > j,
        ensures
            b == input_before(resolve::named_views(ni@), i as int, j as int),
    {
        if text::sorts_before(ni[i].reg.ty_name, ni[j].reg.ty_name) {
            true
        } else if !text::same_text(ni[i].reg.ty_name, ni[j].reg.ty_name) {
            false
        } else {
            text::sorts_before(ni[i].reg.name, ni[j].reg.name) || (text::same_text(
                ni[i].reg.name,
                ni[j].reg.name,
            ) && i < j)
        }
    };
    let order = order::arrange(&marks, comes_before, Ghost(before));
    proof {
        order::lemma_arrangement_same_marks(
            order::ints(order@),
            ni.len() as int,
            |i: int| marks@[i],
            |p: int| is_newest_input(v, p),
            before,
        );
    }
    lists::pick(ni, &order)
}

/// A complaint about every name that several candidates of one lane share.
pub fn report_candidate_duplicates(group: &'static str, cs: &Vec<Named<Candidate>>) -> (out: Vec<
    Diagnostic,
>)
    ensures
        diagnostic::diagnostic_views(out@) == candidate_duplicates(
            group@,
            resolve::named_views(cs@),
        ),
{
    let ghost v = resolve::named_views(cs@);
    let names = lists::borrow_names(cs);
    let order = lists::distinct_positions(&names);
    let ghost t = lists::names_of(v);
    let ghost all = lists::distinct_order(t);
    let ghost f = |p: int|
        if lists::repeated(t, p) {
            Some(twice(group@, "candidate"@, v[p].reg.name))
        } else {
            None
        };
    assert(t.len() == cs.len());
    let mut out: Vec<Diagnostic> = Vec::new();
    let mut k: usize = 0;
    assert(all.take(0) =~= Seq::<int>::empty());
    while k < order.len()
        invariant
            k <= order.len(),
            v == resolve::named_views(cs@),
            t == text::texts(names@),
            t.len() == cs.len(),
            all == order::ints(order@),
            f == (|p: int|
                if lists::repeated(t, p) {
                    Some(twice(group@, "candidate"@, v[p].reg.name))
                } else {
                    None
                }),
            forall|a: int| 0 <= a < order@.len() ==> #[trigger] order@[a] < names@.len(),
            diagnostic::diagnostic_views(out@) == all.take(k as int).filter_map(f),
        decreases order.len() - k,
    {
        let ghost had = diagnostic::diagnostic_views(out@);
        assert(all[k as int] == order@[k as int]);
        if lists::is_repeated(&names, order[k]) {
            out.push(
                Diagnostic::DuplicateMatrixEntry {
                    matrix: group.to_owned(),
                    what: "candidate",
                    name: cs[order[k]].reg.name.to_owned(),
                },
            );
            assert(diagnostic::diagnostic_views(out@) =~= had.push(out@.last()@));
        }
        proof {
            lists::lemma_filter_map_step(all, f, k as int);
        }
        k += 1;
    }
    assert(all.take(k as int) =~= all);
    out
}

/// The input a group with candidates but no declared input takes.
fn unit_input() -> (unit: Named<Input>)
    ensures
        unit@ == unit_input_view(),
{
    let reg: &'static Input = &Input {
        groups: &[],
        name: "",
        crate_name: "",
        crate_version: "",
        type_id: UNIT_TYPE,
        ty_name: "()",
        make: UNIT_MAKE,
    };
    proof {
        reveal_strlit("");
        assert(""@ =~= Seq::<char>::empty());
        assert(text::texts(reg.groups@) =~= Seq::<Seq<char>>::empty());
    }
    Named {
        name: String::new(),
        reg,
        origin: Origin { crate_name: "", crate_version: "" },
    }
}

/// A complaint about every input and then every candidate whose type is not
/// that of the first input.
fn report_mismatches(
    group: &'static str,
    inputs: &Vec<Named<Input>>,
    cs: &Vec<Named<Candidate>>,
) -> (out: Vec<Diagnostic>)
    requires
        inputs.len() > 0,
    ensures
        diagnostic::diagnostic_views(out@) == mismatches(
            group@,
            resolve::named_views(inputs@),
            resolve::named_views(cs@),
        ),
{
    let ghost vi = resolve::named_views(inputs@);
    let ghost vc = resolve::named_views(cs@);
    let want: u64 = inputs[0].reg.type_id;
    let ghost fi = |i: NamedView<InputView>|
        if i.reg.type_id != want {
            Some(
                DiagnosticView::MatrixTypeMismatch {
                    matrix: group@,
                    candidate: i.name,
                    ty_name: i.reg.ty_name,
                },
            )
        } else {
            None
        };
    let ghost fc = |c: NamedView<CandidateView>|
        if c.reg.input_type != want {
            Some(
                DiagnosticView::MatrixTypeMismatch {
                    matrix: group@,
                    candidate: c.name,
                    ty_name: c.reg.input_type_name,
                },
            )
        } else {
            None
        };
    let mut out: Vec<Diagnostic> = Vec::new();
    let mut k: usize = 0;
    assert(vi.take(0) =~= Seq::<NamedView<InputView>>::empty());
    while k < inputs.len()
        invariant
            k <= inputs.len(),
            vi == resolve::named_views(inputs@),
            fi == (|i: NamedView<InputView>|
                if i.reg.type_id != want {
                    Some(
                        DiagnosticView::MatrixTypeMismatch {
                            matrix: group@,
                            candidate: i.name,
                            ty_name: i.reg.ty_name,
                        },
                    )
                } else {
                    None
                }),
            diagnostic::diagnostic_views(out@) == vi.take(k as int).filter_map(fi),
        decreases inputs.len() - k,
    {
        let ghost had = diagnostic::diagnostic_views(out@);
        if inputs[k].reg.type_id != want {
            out.push(
                Diagnostic::MatrixTypeMismatch {
                    matrix: group.to_owned(),
                    candidate: inputs[k].name.clone(),
                    ty_name: inputs[k].reg.ty_name,
                },
            );
            assert(diagnostic::diagnostic_views(out@) =~= had.push(out@.last()@));
        }
        proof {
            lists::lemma_filter_map_step(vi, fi, k as int);
        }
        k += 1;
    }
    assert(vi.take(k as int) =~= vi);
    k = 0;
    assert(vc.take(0) =~= Seq::<NamedView<CandidateView>>::empty());
    while k < cs.len()
        invariant
            k <= cs.len(),
            vc == resolve::named_views(cs@),
            fc == (|c: NamedView<CandidateView>|
                if c.reg.input_type != want {
                    Some(
                        DiagnosticView::MatrixTypeMismatch {
                            matrix: group@,
                            candidate: c.name,
                            ty_name: c.reg.input_type_name,
                        },
                    )
                } else {
                    None
                }),
            diagnostic::diagnostic_views(out@) == vi.filter_map(fi) + vc.take(k as int).filter_map(
                fc,
            ),
        decreases cs.len() - k,
    {
        let ghost had = diagnostic::diagnostic_views(out@);
        if cs[k].reg.input_type != want {
            out.push(
                Diagnostic::MatrixTypeMismatch {
                    matrix: group.to_owned(),
                    candidate: cs[k].name.clone(),
                    ty_name: cs[k].reg.input_type_name,
                },
            );
            assert(diagnostic::diagnostic_views(out@) =~= had.push(out@.last()@));
        }
        proof {
            lists::lemma_filter_map_step(vc, fc, k as int);
            assert(diagnostic::diagnostic_views(out@) =~= vi.filter_map(fi) + vc.take(
                k + 1,
            ).filter_map(fc));
        }
        k += 1;
    }
    assert(vc.take(k as int) =~= vc);
    out
}

/// A remark about each candidate that nothing feeds.
fn report_orphan_candidates(group: &'static str, cs: &Vec<Named<Candidate>>) -> (out: Vec<
    Diagnostic,
>)
    ensures
        diagnostic::diagnostic_views(out@) == orphan_candidates(
            group@,
            resolve::named_views(cs@),
        ),
{
    let ghost all = orphan_candidates(group@, resolve::named_views(cs@));
    let mut out: Vec<Diagnostic> = Vec::new();
    let mut k: usize = 0;
    while k < cs.len()
        invariant
            k <= cs.len(),
            all == orphan_candidates(group@, resolve::named_views(cs@)),
            diagnostic::diagnostic_views(out@) == all.take(k as int),
        decreases cs.len() - k,
    {
        let ghost had = diagnostic::diagnostic_views(out@);
        out.push(
            Diagnostic::OrphanCandidate {
                matrix: group.to_owned(),
                name: cs[k].name.clone(),
                ty_name: cs[k].reg.input_type_name,
            },
        );
        assert(diagnostic::diagnostic_views(out@) =~= had.push(all[k as int]));
        assert(all.take(k + 1) =~= all.take(k as int).push(all[k as int]));
        k += 1;
    }
    assert(all.take(k as int) =~= all);
    out
}

/// A remark about each input that nothing takes.
fn report_orphan_inputs(group: &'static str, inputs: &Vec<Named<Input>>) -> (out: Vec<Diagnostic>)
    ensures
        diagnostic::diagnostic_views(out@) == orphan_inputs(
            group@,
            resolve::named_views(inputs@),
        ),
{
    let ghost all = orphan_inputs(group@, resolve::named_views(inputs@));
    let mut out: Vec<Diagnostic> = Vec::new();
    let mut k: usize = 0;
    while k < inputs.len()
        invariant
            k <= inputs.len(),
            all == orphan_inputs(group@, resolve::named_views(inputs@)),
            diagnostic::diagnostic_views(out@) == all.take(k as int),
        decreases inputs.len() - k,
    {
        let ghost had = diagnostic::diagnostic_views(out@);
        out.push(
            Diagnostic::OrphanInput {
                matrix: group.to_owned(),
                name: inputs[k].name.clone(),
                ty_name: inputs[k].reg.ty_name,
            },
        );
        assert(diagnostic::diagnostic_views(out@) =~= had.push(all[k as int]));
        assert(all.take(k + 1) =~= all.take(k as int).push(all[k as int]));
        k += 1;
    }
    assert(all.take(k as int) =~= all);
    out
}

/// The positions of the candidates that ask to be the baseline.
fn claimants_of(cs: &Vec<Named<Candidate>>) -> (out: Vec<usize>)
    ensures
        forall|a: int|
            0 <= a < out@.len() ==> claims(
                resolve::named_views(cs@),
                #[trigger] out@[a] as int,
            ),
        forall|a: int, b: int|
            #![trigger out@[a], out@[b]]
            0 <= a < b < out@.len() ==> out@[a] < out@[b],
        forall|p: int| #[trigger]
            claims(resolve::named_views(cs@), p) ==> out@.contains(p as usize),
        lists::picked(resolve::named_views(cs@), order::ints(out@)) == resolve::named_views(
            cs@,
        ).filter(|c: NamedView<CandidateView>| c.reg.is_baseline),
{
    let ghost v = resolve::named_views(cs@);
    let ghost asks = |c: NamedView<CandidateView>| c.reg.is_baseline;
    let mut out: Vec<usize> = Vec::new();
    let mut p: usize = 0;
    proof {
        reveal(Seq::filter);
        assert(v.take(0) =~= Seq::<NamedView<CandidateView>>::empty());
        assert(lists::picked(v, order::ints(out@)) =~= v.take(0).filter(asks));
    }
    while p < cs.len()
        invariant
            p <= cs.len(),
            v == resolve::named_views(cs@),
            asks == (|c: NamedView<CandidateView>| c.reg.is_baseline),
            forall|a: int|
                0 <= a < out@.len() ==> claims(v, #[trigger] out@[a] as int) && out@[a] < p,
            forall|a: int, b: int|
                #![trigger out@[a], out@[b]]
                0 <= a < b < out@.len() ==> out@[a] < out@[b],
            forall|q: int| q < p && #[trigger] claims(v, q) ==> out@.contains(q as usize),
            lists::picked(v, order::ints(out@)) == v.take(p as int).filter(asks),
        decreases cs.len() - p,
    {
        let ghost had = out@;
        proof {
            lists::lemma_filter_step(v, asks, p as int);
        }
        if cs[p].reg.is_baseline {
            out.push(p);
            proof {
                assert forall|q: int| q < p + 1 && #[trigger] claims(v, q) implies out@.contains(
                    q as usize,
                ) by {
                    if q < p {
                        assert(had.contains(q as usize));
                        let a = choose|a: int| 0 <= a < had.len() && had[a] == q as usize;
                        assert(out@[a] == q as usize);
                    } else {
                        assert(out@[had.len() as int] == q as usize);
                    }
                }
                assert(claims(v, p as int));
                assert(lists::picked(v, order::ints(out@)) =~= lists::picked(
                    v,
                    order::ints(had),
                ).push(v[p as int]));
            }
        }
        p += 1;
    }
    assert(v.take(p as int) =~= v);
    out
}

/// Whether two claimants came from one crate at one version.
fn same_origin_twice(cs: &Vec<Named<Candidate>>, claimants: &Vec<usize>) -> (twice: bool)
    requires
        forall|a: int|
            0 <= a < claimants@.len() ==> claims(
                resolve::named_views(cs@),
                #[trigger] claimants@[a] as int,
            ),
        forall|a: int, b: int|
            #![trigger claimants@[a], claimants@[b]]
            0 <= a < b < claimants@.len() ==> claimants@[a] < claimants@[b],
        forall|p: int| #[trigger]
            claims(resolve::named_views(cs@), p) ==> claimants@.contains(p as usize),
    ensures
        twice == contradicts_itself(resolve::named_views(cs@)),
{
    let ghost v = resolve::named_views(cs@);
    let mut a: usize = 0;
    while a < claimants.len()
        invariant
            a <= claimants.len(),
            v == resolve::named_views(cs@),
            forall|a: int|
                0 <= a < claimants@.len() ==> claims(v, #[trigger] claimants@[a] as int),
            forall|a: int, b: int|
                #![trigger claimants@[a], claimants@[b]]
                0 <= a < b < claimants@.len() ==> claimants@[a] < claimants@[b],
            forall|x: int, y: int|
                #![trigger claimants@[x], claimants@[y]]
                0 <= x < a && x < y < claimants@.len() ==> v[claimants@[x] as int].origin
                    != v[claimants@[y] as int].origin,
        decreases claimants.len() - a,
    {
        let mut b: usize = a + 1;
        while b < claimants.len()
            invariant
                a < b <= claimants.len(),
                v == resolve::named_views(cs@),
                forall|a: int|
                    0 <= a < claimants@.len() ==> claims(v, #[trigger] claimants@[a] as int),
                forall|a: int, b: int|
                    #![trigger claimants@[a], claimants@[b]]
                    0 <= a < b < claimants@.len() ==> claimants@[a] < claimants@[b],
                forall|y: int|
                    a < y < b ==> v[claimants@[a as int] as int].origin
                        != v[#[trigger] claimants@[y] as int].origin,
            decreases claimants.len() - b,
        {
            let x = claimants[a];
            let y = claimants[b];
            assert(claims(v, x as int) && claims(v, y as int));
            if text::same_text(cs[x].origin.crate_name, cs[y].origin.crate_name)
                && text::same_text(cs[x].origin.crate_version, cs[y].origin.crate_version) {
                assert(v[x as int].origin == v[y as int].origin);
                return true;
            }
            b += 1;
        }
        a += 1;
    }
    proof {
        if contradicts_itself(v) {
            let (p, q) = choose|p: int, q: int|
                #![trigger claims(v, p), claims(v, q)]
                p < q && claims(v, p) && claims(v, q) && v[p].origin == v[q].origin;
            assert(p < cs.len() && q < cs.len());
            assert(claimants@.contains(p as usize));
            assert(claimants@.contains(q as usize));
            let x = choose|x: int| 0 <= x < claimants@.len() && claimants@[x] == p as usize;
            let y = choose|y: int| 0 <= y < claimants@.len() && claimants@[y] == q as usize;
            if y < x {
                assert(claimants@[y] < claimants@[x]);
            }
            assert(x != y);
            assert(v[claimants@[x] as int].origin != v[claimants@[y] as int].origin);
        }
    }
    false
}

/// The oldest of several claimants to be the baseline, the first listed of
/// those where several are equally old.
///
/// The oldest makes a regression read the right way round: asking whether the
/// new code is faster than the old wants the old code as what is measured
/// against.
pub fn oldest_claimant<T: View>(cs: &Vec<Named<T>>, claimants: &Vec<usize>) -> (oldest: usize)
    requires
        claimants@.len() > 0,
        forall|a: int| 0 <= a < claimants@.len() ==> #[trigger] claimants@[a] < cs@.len(),
    ensures
        claimants@.contains(oldest),
        forall|a: int|
            0 <= a < claimants@.len() ==> !version::older(
                resolve::named_views(cs@)[#[trigger] claimants@[a] as int].origin.numbers(),
                resolve::named_views(cs@)[oldest as int].origin.numbers(),
            ),
        exists|a: int|
            is_oldest_listed(resolve::named_views(cs@), order::ints(claimants@), a)
                && #[trigger] claimants@[a] == oldest,
{
    let ghost v = resolve::named_views(cs@);
    let mut best: usize = 0;
    let mut k: usize = 1;
    while k < claimants.len()
        invariant
            best < k <= claimants.len(),
            v == resolve::named_views(cs@),
            forall|a: int| 0 <= a < claimants@.len() ==> #[trigger] claimants@[a] < cs@.len(),
            forall|a: int|
                0 <= a < k ==> !version::older(
                    v[#[trigger] claimants@[a] as int].origin.numbers(),
                    v[claimants@[best as int] as int].origin.numbers(),
                ) && (a < best ==> version::older(
                    v[claimants@[best as int] as int].origin.numbers(),
                    v[claimants@[a] as int].origin.numbers(),
                )),
        decreases claimants.len() - k,
    {
        let mine = cs[claimants[k]].origin.version();
        if mine.is_older_than(&cs[claimants[best]].origin.version()) {
            best = k;
        }
        k += 1;
    }
    let oldest = claimants[best];
    proof {
        let listed = order::ints(claimants@);
        assert forall|b: int| 0 <= b < listed.len() implies !version::older(
            v[#[trigger] listed[b]].origin.numbers(),
            v[listed[best as int]].origin.numbers(),
        ) && (b < best ==> version::older(
            v[listed[best as int]].origin.numbers(),
            v[listed[b]].origin.numbers(),
        )) by {
            assert(listed[b] == claimants@[b]);
        }
        assert(is_oldest_listed(v, listed, best as int));
    }
    oldest
}

/// Where every claimant is listed, in order, the oldest listed is the oldest
/// there is.
proof fn lemma_oldest_listed(cs: Seq<NamedView<CandidateView>>, claimants: Seq<int>, a: int)
    requires
        is_oldest_listed(cs, claimants, a),
        forall|b: int| 0 <= b < claimants.len() ==> claims(cs, #[trigger] claimants[b]),
        forall|b: int, c: int|
            #![trigger claimants[b], claimants[c]]
            0 <= b < c < claimants.len() ==> claimants[b] < claimants[c],
        forall|p: int| #[trigger] claims(cs, p) ==> claimants.contains(p),
    ensures
        is_oldest_claimant(cs, claimants[a]),
{
    let oldest = claimants[a];
    assert forall|q: int| #[trigger] claims(cs, q) implies !version::older(
        cs[q].origin.numbers(),
        cs[oldest].origin.numbers(),
    ) && (q < oldest ==> version::older(
        cs[oldest].origin.numbers(),
        cs[q].origin.numbers(),
    )) by {
        assert(claimants.contains(q));
        let b = choose|b: int| 0 <= b < claimants.len() && claimants[b] == q;
        if q < oldest && b > a {
            assert(claimants[a] < claimants[b]);
        }
    }
}

/// There is one oldest claimant at most.
proof fn lemma_one_oldest(cs: Seq<NamedView<CandidateView>>, p: int, q: int)
    requires
        is_oldest_claimant(cs, p),
        is_oldest_claimant(cs, q),
    ensures
        p == q,
{
    assert(claims(cs, p) && claims(cs, q));
}

/// Where a registration came from and what it is called, for a reader.
pub fn render(origin: &Origin, name: &str) -> (out: String)
    ensures
        out@ == rendered(origin@, name@),
{
    let mut out = origin.crate_name.to_owned();
    out.append("@");
    out.append(origin.crate_version);
    out.append(" (");
    out.append(name);
    out.append(")");
    out
}

/// The claimants to be the baseline, for a reader.
fn render_claimants(cs: &Vec<Named<Candidate>>, claimants: &Vec<usize>) -> (out: Vec<String>)
    requires
        forall|a: int| 0 <= a < claimants@.len() ==> #[trigger] claimants@[a] < cs@.len(),
    ensures
        text::strings(out@) == lists::picked(
            resolve::named_views(cs@),
            order::ints(claimants@),
        ).map_values(|c: NamedView<CandidateView>| rendered(c.origin, c.name)),
{
    let ghost all = lists::picked(resolve::named_views(cs@), order::ints(claimants@)).map_values(
        |c: NamedView<CandidateView>| rendered(c.origin, c.name),
    );
    let mut out: Vec<String> = Vec::new();
    let mut k: usize = 0;
    while k < claimants.len()
        invariant
            k <= claimants.len(),
            forall|a: int| 0 <= a < claimants@.len() ==> #[trigger] claimants@[a] < cs@.len(),
            all == lists::picked(
                resolve::named_views(cs@),
                order::ints(claimants@),
            ).map_values(|c: NamedView<CandidateView>| rendered(c.origin, c.name)),
            text::strings(out@) == all.take(k as int),
        decreases claimants.len() - k,
    {
        let ghost had = text::strings(out@);
        let c = &cs[claimants[k]];
        out.push(render(&c.origin, c.name.as_str()));
        proof {
            assert(order::ints(claimants@)[k as int] == claimants@[k as int]);
            assert(out@.last()@ == all[k as int]);
            assert(text::strings(out@) =~= had.push(all[k as int]));
            assert(all.take(k + 1) =~= all.take(k as int).push(all[k as int]));
        }
        k += 1;
    }
    assert(all.take(k as int) =~= all);
    out
}

/// Pair the candidates and inputs of one type into a lane, or say why there
/// is none.
pub fn pair_lane(
    group: &'static str,
    ty_name: &'static str,
    cs: Vec<Named<Candidate>>,
    registered: Vec<Named<Input>>,
) -> (out: (Option<Lane>, Vec<Diagnostic>))
    ensures
        ({
            let p = pairing(
                group@,
                ty_name@,
                resolve::named_views(cs@),
                resolve::named_views(registered@),
            );
            &&& (match out.0 {
                Some(lane) => p.lane == Some(lane@),
                None => p.lane is None,
            })
            &&& diagnostic::diagnostic_views(out.1@) == p.problems
        }),
{
    let mut inputs = registered;
    if inputs.len() == 0 && text::same_text(ty_name, "()") {
        inputs.push(unit_input());
    }
    assert(resolve::named_views(inputs@) =~= inputs_or_unit(
        ty_name@,
        resolve::named_views(registered@),
    ));
    if inputs.len() == 0 {
        return (None, report_orphan_candidates(group, &cs));
    }
    if cs.len() == 0 {
        return (None, report_orphan_inputs(group, &inputs));
    }
    let wrong = report_mismatches(group, &inputs, &cs);
    if wrong.len() > 0 {
        return (None, wrong);
    }
    let sorted = lists::sort_by_name(&cs);
    let claimants = claimants_of(&sorted);
    let ghost v = resolve::named_views(sorted@);
    assert forall|a: int| 0 <= a < claimants@.len() implies #[trigger] claimants@[a]
        < sorted@.len() by {
        assert(claims(v, claimants@[a] as int));
    }
    if same_origin_twice(&sorted, &claimants) {
        let mut problems: Vec<Diagnostic> = Vec::new();
        problems.push(
            Diagnostic::ManyBaselines {
                group: group.to_owned(),
                claimants: render_claimants(&sorted, &claimants),
            },
        );
        return (None, problems);
    }
    assert(sorted.len() > 0) by {
        lists::lemma_sorted_keeps_length(resolve::named_views(cs@));
    }
    let baseline: String = if claimants.len() == 0 {
        assert forall|p: int| !claims(v, p) by {
            if claims(v, p) {
                assert(claimants@.contains(p as usize));
            }
        }
        sorted[0].name.clone()
    } else {
        let oldest = oldest_claimant(&sorted, &claimants);
        proof {
            let listed = order::ints(claimants@);
            let a = choose|a: int|
                is_oldest_listed(v, listed, a) && #[trigger] claimants@[a] == oldest;
            assert forall|b: int| 0 <= b < listed.len() implies claims(v, #[trigger] listed[b]) by {
                assert(claims(v, claimants@[b] as int));
            }
            assert forall|b: int, c: int|
                #![trigger listed[b], listed[c]]
                0 <= b < c < listed.len() implies listed[b] < listed[c] by {
                assert(claimants@[b] < claimants@[c]);
            }
            assert forall|p: int| #[trigger] claims(v, p) implies listed.contains(p) by {
                assert(claimants@.contains(p as usize));
                let b = choose|b: int| 0 <= b < claimants@.len() && claimants@[b] == p as usize;
                assert(listed[b] == p);
            }
            lemma_oldest_listed(v, listed, a);
            let chosen = choose|p: int| is_oldest_claimant(v, p);
            lemma_one_oldest(v, chosen, oldest as int);
        }
        sorted[oldest].name.clone()
    };
    let lane = Lane {
        group,
        ty_name,
        candidates: lists::put_baseline_first(&sorted, baseline.as_str()),
        inputs: lists::sort_by_name(&inputs),
        needs_type_suffix: false,
    };
    (Some(lane), Vec::new())
}

} // verus!
