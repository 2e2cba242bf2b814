//! What holds of every report, and of every line of one.

use crate::diagnostic::DiagnosticView;
use crate::ladder;
use crate::lane;
use crate::layout;
use crate::lines;
use crate::lists;
use crate::report;
use crate::report::{Found, ReportView};
use crate::sampling;
use crate::text;
use crate::text_laws;
use crate::timings::TimingsView;
use vstd::prelude::*;

verus! {

/// A name finds the first entry of that name, and that as what it is: a
/// benchmark that stands alone where one alternative was timed, a comparison
/// where several were, a scaling law where one was fitted.
pub proof fn law_a_name_finds_its_first_entry<S, M>(r: ReportView<S, M>, p: int)
    requires
        r.well_formed(),
        0 <= p < r.names.len(),
        forall|q: int| 0 <= q < p ==> #[trigger] r.names[q] != r.names[p],
    ensures
        r.lookup(r.names[p]) == Some(r.found[p]),
        match r.found[p] {
            Found::Timing(t) => {
                &&& t@.timings.len() == 1 ==> r.lone(r.names[p]) == Some(t@.timings[0])
                &&& t@.timings.len() != 1 ==> r.lone(r.names[p]) is None
                &&& t@.timings.len() >= 2 ==> r.compared(r.names[p]) == Some(t)
                &&& t@.timings.len() < 2 ==> r.compared(r.names[p]) is None
                &&& r.found[p].law() is None
            },
            Found::Scaling(s) => {
                &&& r.lone(r.names[p]) is None
                &&& r.compared(r.names[p]) is None
                &&& r.found[p].law() == Some(s)
            },
        },
{
    report::lemma_place(r.names, r.names[p]);
    let q = report::place(r.names, r.names[p]);
    if q < p {
        assert(r.names[q] != r.names[p]);
    }
}

/// A name that was not measured finds nothing.
pub proof fn law_an_unknown_name_finds_nothing<S, M>(r: ReportView<S, M>, name: Seq<char>)
    requires
        r.well_formed(),
        !r.names.contains(name),
    ensures
        r.lookup(name) is None,
        r.lone(name) is None,
        r.compared(name) is None,
{
    report::lemma_place(r.names, name);
    let q = report::place(r.names, name);
    if q < r.names.len() {
        assert(r.names.contains(r.names[q]));
    }
}

/// Going through the benchmarks that stand alone gives each of them once, in
/// order, under its own name.
pub proof fn law_every_lone_benchmark_is_gone_through<S, M>(r: ReportView<S, M>) -> (at: Seq<int>)
    requires
        r.well_formed(),
    ensures
        r.all_lone().len() == at.len(),
        forall|k: int|
            0 <= k < at.len() ==> 0 <= #[trigger] at[k] < r.found.len() && r.found[at[k]].lone()
                == Some(r.all_lone()[k].1) && r.all_lone()[k].0 == r.names[at[k]],
        forall|j: int, k: int|
            #![trigger at[j], at[k]]
            0 <= j < k < at.len() ==> at[j] < at[k],
        forall|p: int|
            0 <= p < r.found.len() && (#[trigger] r.found[p]).lone() is Some ==> at.contains(p),
{
    let all = lane::positions(r.found.len());
    let f = |p: int|
        match r.found[p].lone() {
            Some(t) => Some((r.names[p], t)),
            None => None,
        };
    let at = lists::lemma_filter_map_places(all, f);
    assert(r.all_lone() == all.filter_map(f));
    assert(forall|p: int| 0 <= p < all.len() ==> #[trigger] all[p] == p);
    assert forall|k: int| 0 <= k < at.len() implies 0 <= #[trigger] at[k] < r.found.len()
        && r.found[at[k]].lone() == Some(r.all_lone()[k].1) && r.all_lone()[k].0
        == r.names[at[k]] by {
        assert(f(all[at[k]]) == Some(r.all_lone()[k]));
    }
    assert forall|p: int|
        0 <= p < r.found.len() && (#[trigger] r.found[p]).lone() is Some implies at.contains(p) by {
        assert(f(all[p]) is Some);
    }
    at
}

/// Going through the comparisons gives each of them once, in order, under its
/// own name.
pub proof fn law_every_comparison_is_gone_through<S, M>(r: ReportView<S, M>) -> (at: Seq<int>)
    requires
        r.well_formed(),
    ensures
        r.all_compared().len() == at.len(),
        forall|k: int|
            0 <= k < at.len() ==> 0 <= #[trigger] at[k] < r.found.len()
                && r.found[at[k]].compared() == Some(r.all_compared()[k].1)
                && r.all_compared()[k].0 == r.names[at[k]],
        forall|j: int, k: int|
            #![trigger at[j], at[k]]
            0 <= j < k < at.len() ==> at[j] < at[k],
        forall|p: int|
            0 <= p < r.found.len() && (#[trigger] r.found[p]).compared() is Some ==> at.contains(p),
{
    let all = lane::positions(r.found.len());
    let f = |p: int|
        match r.found[p].compared() {
            Some(t) => Some((r.names[p], t)),
            None => None,
        };
    let at = lists::lemma_filter_map_places(all, f);
    assert(r.all_compared() == all.filter_map(f));
    assert(forall|p: int| 0 <= p < all.len() ==> #[trigger] all[p] == p);
    assert forall|k: int| 0 <= k < at.len() implies 0 <= #[trigger] at[k] < r.found.len()
        && r.found[at[k]].compared() == Some(r.all_compared()[k].1) && r.all_compared()[k].0
        == r.names[at[k]] by {
        assert(f(all[at[k]]) == Some(r.all_compared()[k]));
    }
    assert forall|p: int|
        0 <= p < r.found.len() && (#[trigger] r.found[p]).compared() is Some implies at.contains(
        p,
    ) by {
        assert(f(all[p]) is Some);
    }
    at
}

/// An entry that shows itself on one line stands behind its name, padded to the
/// width of the names and two spaces more; one that takes several lines starts
/// below its name and a colon. White space at its end is left out.
pub proof fn law_how_an_entry_is_printed(name: Seq<char>, shown: Seq<char>, width: nat)
    ensures
        ({
            let (text, s) = (report::entry_text(name, shown, width), text::trimmed_end(shown));
            let from = if name.len() < width {
                width as int
            } else {
                name.len() as int
            };
            &&& text::stands_at(text, name, 0)
            &&& s.contains('\n') ==> text == name + seq![':', '\n'] + s
            &&& !s.contains('\n') ==> {
                &&& text.len() == from + 2 + s.len()
                &&& text.skip(from + 2) == s
                &&& forall|i: int| name.len() <= i < from + 2 ==> #[trigger] text[i] == ' '
            }
        }),
{
    reveal_strlit(":\n");
    reveal_strlit("  ");
    assert(":\n"@ =~= seq![':', '\n']);
    let text = report::entry_text(name, shown, width);
    let s = text::trimmed_end(shown);
    let from = if name.len() < width {
        width as int
    } else {
        name.len() as int
    };
    assert(text.subrange(0, name.len() as int) =~= name);
    if !s.contains('\n') {
        assert(text.skip(from + 2) =~= s);
    }
}

/// A report is its entries one after another, each on lines of its own, in
/// the order they were declared, and all padded alike.
pub proof fn law_a_report_prints_every_entry(names: Seq<Seq<char>>, shown: Seq<Seq<char>>, i: int)
    requires
        names.len() == shown.len(),
        0 <= i < names.len(),
    ensures
        ({
            let (before, after) = (
                report::entry_texts(names, shown).take(i),
                report::entry_texts(names, shown).skip(i + 1),
            );
            let mine = report::entry_text(names[i], shown[i], layout::widest(names));
            report::report_text(names, shown) == text::joined(
                before.push(mine) + after,
                seq!['\n'],
            )
        }),
        text::has_part(
            report::report_text(names, shown),
            report::entry_text(names[i], shown[i], layout::widest(names)),
        ),
{
    reveal_strlit("\n");
    assert("\n"@ =~= seq!['\n']);
    let all = report::entry_texts(names, shown);
    assert(all.take(i).push(all[i]) + all.skip(i + 1) =~= all);
    lemma_joined_has(all, "\n"@, i);
}

/// What was joined has each of its parts.
proof fn lemma_joined_has(parts: Seq<Seq<char>>, sep: Seq<char>, i: int)
    requires
        0 <= i < parts.len(),
    ensures
        text::has_part(text::joined(parts, sep), parts[i]),
    decreases parts.len(),
{
    let s = text::joined(parts, sep);
    let none = Seq::<char>::empty();
    if parts.len() == 1 {
        assert(s =~= none + parts[i] + none);
    } else {
        let rest = parts.drop_last();
        let before = text::joined(rest, sep);
        if i == rest.len() {
            assert(s =~= (before + sep) + parts[i] + none);
        } else {
            lemma_joined_has(rest, sep, i);
            text_laws::law_a_part_stands_between(before, parts[i]);
            let (x, y) = choose|x: Seq<char>, y: Seq<char>| before == #[trigger] (x + parts[i] + y);
            let after = y + sep + parts.last();
            assert(s =~= x + parts[i] + after);
        }
    }
    text_laws::law_a_part_stands_between(s, parts[i]);
}

/// Each alternative's line starts with its own name and shows its own text;
/// beyond the baseline, which says that it is one, its own measurement stands
/// before that. The lines follow one another in order.
pub proof fn law_a_line_shows_its_own_alternative<M>(
    t: TimingsView<M>,
    shown: Seq<Seq<char>>,
    measurements: Seq<Seq<char>>,
    i: int,
)
    requires
        t.well_formed(),
        shown.len() == t.names.len(),
        measurements.len() == t.names.len(),
        0 <= i < t.names.len(),
    ensures
        ({
            let line = t.line(shown, measurements, i);
            let label = t.names[i] + layout::spaces(
                layout::room(t.names[i], layout::widest(t.names)) + 2,
            );
            &&& i == 0 ==> line == label + shown[0] + "  (baseline)"@ + seq!['\n']
            &&& i > 0 ==> line == label + measurements[i] + seq![' ', ' '] + shown[i] + seq!['\n']
        }),
        text::stands_at(
            t.block(shown, measurements, t.names.len() as int),
            t.line(shown, measurements, i),
            t.block(shown, measurements, i).len() as int,
        ),
        t.block(shown, measurements, 0).len() == 0,
        t.block(shown, measurements, i + 1).len() == t.block(shown, measurements, i).len() + t.line(
            shown,
            measurements,
            i,
        ).len(),
{
    reveal_strlit("  (baseline)\n");
    reveal_strlit("  (baseline)");
    reveal_strlit("  ");
    reveal_strlit("\n");
    let line = t.line(shown, measurements, i);
    let label = t.names[i] + layout::spaces(
        layout::room(t.names[i], layout::widest(t.names)) + 2,
    );
    if i == 0 {
        assert(line =~= label + shown[0] + "  (baseline)"@ + seq!['\n']);
    } else {
        assert(line =~= label + measurements[i] + seq![' ', ' '] + shown[i] + seq!['\n']);
    }
    lemma_block_has(t, shown, measurements, t.names.len() as int, i);
}

/// A block has each of its lines.
proof fn lemma_block_has<M>(
    t: TimingsView<M>,
    shown: Seq<Seq<char>>,
    measurements: Seq<Seq<char>>,
    n: int,
    i: int,
)
    requires
        0 <= i < n,
    ensures
        text::stands_at(
            t.block(shown, measurements, n),
            t.line(shown, measurements, i),
            t.block(shown, measurements, i).len() as int,
        ),
    decreases n,
{
    let all = t.block(shown, measurements, n);
    let before = t.block(shown, measurements, n - 1);
    let line = t.line(shown, measurements, i);
    let at = t.block(shown, measurements, i).len() as int;
    if i < n - 1 {
        lemma_block_has(t, shown, measurements, n - 1, i);
        assert(all.subrange(at, at + line.len()) =~= before.subrange(at, at + line.len()));
    } else {
        assert(all.subrange(at, at + line.len()) =~= line);
    }
}

/// The alternatives beyond the baseline are all but the first, each under its
/// own name; one differs exactly where it is shown to have changed, and the
/// baseline never does.
pub proof fn law_beyond_the_baseline<M>(t: TimingsView<M>, i: int)
    requires
        t.well_formed(),
        0 <= i < t.timings.len(),
    ensures
        t.beyond_baseline().len() == t.names.len() - 1,
        i > 0 ==> t.beyond_baseline()[i - 1] == (t.names[i], t.timings[i]),
        t.differs(i) <==> i > 0 && t.timings[i].changed == Some(true),
        !t.differs(0),
{
}

/// What each alternative of a run measured is its own, and what the run says of
/// itself it says of each of them.
pub proof fn law_a_run_keeps_its_measurements<M>(
    names: Seq<Seq<char>>,
    measured: Seq<M>,
    changed: Seq<Option<bool>>,
    run: sampling::Finished,
    i: int,
)
    requires
        0 <= i < names.len(),
        measured.len() == names.len(),
        changed.len() == names.len(),
    ensures
        ({
            let t = TimingsView::of_run(names, measured, changed, run);
            &&& t.names == names
            &&& t.timings.len() == names.len()
            &&& t.timings[i].measured == measured[i]
            &&& t.timings[i].changed == changed[i]
            &&& t.timings[i].samples == run.samples
            &&& t.timings[i].iterations == run.iterations
            &&& t.timings[i].hit_limit == run.hit_limit
            &&& t.timings[i].untrustworthy == run.untrustworthy
        }),
{
}

/// A measurement is its value, at the right of eleven characters, its error,
/// and its mark. Without an error it says so, and after how many samples.
pub proof fn law_how_a_measurement_is_written(
    value: Seq<char>,
    error: Seq<char>,
    samples: nat,
    marked: Seq<char>,
)
    ensures
        ({
            let head = layout::spaces(layout::room(value, 11)) + value;
            let unknown = lines::measurement(value, None, samples, marked);
            &&& lines::measurement(value, Some(error), samples, marked) == head + seq![' ', '±', ' ']
                + error + marked
            &&& text::stands_at(unknown, head, 0)
            &&& text::has_part(
                unknown,
                "only "@ + text::decimal(samples) + " sample"@ + if samples == 1 {
                    seq![')']
                } else {
                    seq!['s', ')']
                } + marked,
            )
        }),
{
    reveal_strlit(" ± ");
    reveal_strlit(" (± unknown, only ");
    reveal_strlit("only ");
    reveal_strlit(" (± unknown, ");
    reveal_strlit("s");
    reveal_strlit("");
    reveal_strlit(")");
    assert(" ± "@ =~= seq![' ', '±', ' ']);
    assert(" (± unknown, only "@ =~= " (± unknown, "@ + "only "@);
    let head = layout::spaces(layout::room(value, 11)) + value;
    let with = lines::measurement(value, Some(error), samples, marked);
    assert(with =~= head + seq![' ', '±', ' '] + error + marked);
    let unknown = lines::measurement(value, None, samples, marked);
    assert(unknown.subrange(0, head.len() as int) =~= head);
    let part = "only "@ + text::decimal(samples) + " sample"@ + if samples == 1 {
        seq![')']
    } else {
        seq!['s', ')']
    } + marked;
    let none = Seq::<char>::empty();
    assert(unknown =~= (head + " (± unknown, "@) + part + none);
    text_laws::law_a_part_stands_between(unknown, part);
}

/// A scaling law is its constant and error in brackets, the unit, and what
/// they are per, then the mark of a limit and how well the shape fits.
pub proof fn law_how_a_scaling_law_is_written(
    value: Seq<char>,
    unit: Seq<char>,
    power: nat,
    error: Seq<char>,
    samples: nat,
    hit_limit: bool,
    goodness: Seq<char>,
)
    ensures
        ({
            let shown = seq!['('] + value + seq![' ', '±', ' '] + error + seq![')'] + unit
                + ladder::suffix(power);
            let tail = sampling::mark(hit_limit, false) + seq![' ', '(', 'R', '²', '=']
                + goodness + seq![')'];
            let known = lines::law(
                value,
                unit,
                power,
                Ok(error),
                samples,
                hit_limit,
                goodness,
            );
            known == layout::spaces(layout::room(shown, 22)) + shown + tail
        }),
        forall|why: lines::NoError|
            ({
                let line = #[trigger] lines::law(
                    value,
                    unit,
                    power,
                    Err(why),
                    samples,
                    hit_limit,
                    goodness,
                );
                let head = layout::spaces(layout::room(value, 8)) + value + unit + ladder::suffix(
                    power,
                );
                let tail = text::decimal(samples) + " samples)"@ + sampling::mark(hit_limit, false)
                    + seq![' ', '(', 'R', '²', '='] + goodness + seq![')'];
                let reason = match why {
                    lines::NoError::NoLaw => "no scaling law identified"@,
                    lines::NoError::ZeroCoefficient => "the fitted coefficient is zero"@,
                };
                &&& text::stands_at(line, head, 0)
                &&& text::has_part(line, reason + " after "@ + tail)
            }),
{
    reveal_strlit("(");
    reveal_strlit(" ± ");
    reveal_strlit(")");
    reveal_strlit(" (R²=");
    assert("("@ =~= seq!['(']);
    assert(" ± "@ =~= seq![' ', '±', ' ']);
    assert(")"@ =~= seq![')']);
    assert(" (R²="@ =~= seq![' ', '(', 'R', '²', '=']);
    let shown = seq!['('] + value + seq![' ', '±', ' '] + error + seq![')'] + unit
        + ladder::suffix(power);
    let tail = sampling::mark(hit_limit, false) + seq![' ', '(', 'R', '²', '='] + goodness
        + seq![')'];
    assert(lines::law(value, unit, power, Ok(error), samples, hit_limit, goodness)
        =~= layout::spaces(layout::room(shown, 22)) + shown + tail);
    assert forall|why: lines::NoError|
        ({
            let line = #[trigger] lines::law(
                value,
                unit,
                power,
                Err(why),
                samples,
                hit_limit,
                goodness,
            );
            let head = layout::spaces(layout::room(value, 8)) + value + unit + ladder::suffix(
                power,
            );
            let tail = text::decimal(samples) + " samples)"@ + sampling::mark(hit_limit, false)
                + seq![' ', '(', 'R', '²', '='] + goodness + seq![')'];
            let reason = match why {
                lines::NoError::NoLaw => "no scaling law identified"@,
                lines::NoError::ZeroCoefficient => "the fitted coefficient is zero"@,
            };
            &&& text::stands_at(line, head, 0)
            &&& text::has_part(line, reason + " after "@ + tail)
        }) by {
        let line = lines::law(value, unit, power, Err(why), samples, hit_limit, goodness);
        let head = layout::spaces(layout::room(value, 8)) + value + unit + ladder::suffix(power);
        let reason = match why {
            lines::NoError::NoLaw => "no scaling law identified"@,
            lines::NoError::ZeroCoefficient => "the fitted coefficient is zero"@,
        };
        let part = text::decimal(samples) + " samples)"@ + sampling::mark(hit_limit, false) + seq![
            ' ',
            '(',
            'R',
            '²',
            '=',
        ] + goodness + seq![')'];
        let none = Seq::<char>::empty();
        let all = reason + " after "@ + part;
        assert(line =~= (head + " (± unknown, "@) + all + none);
        text_laws::law_a_part_stands_between(line, all);
        assert(line.subrange(0, head.len() as int) =~= head);
    }
}

/// A problem is put to the reader with every name it is about, in quotes and
/// in its place: the group or the shared name first, then what is at fault.
pub proof fn law_a_sentence_names_what_it_is_about(
    a: Seq<char>,
    b: Seq<char>,
    c: Seq<char>,
    sources: Seq<Seq<char>>,
)
    ensures
        ({
            let q = |s: Seq<char>| seq!['`'] + s + seq!['`'];
            let starts = |d: DiagnosticView, s: Seq<char>| text::stands_at(d.sentence(), s, 0);
            let says = |d: DiagnosticView, s: Seq<char>| text::has_part(d.sentence(), s);
            let all = text::joined(sources, seq![',', ' ']);
            let d1 = DiagnosticView::DuplicateName { name: a, sources };
            let d2 = DiagnosticView::ManyBaselines { group: a, claimants: sources };
            let d3 = DiagnosticView::OrphanCandidate { matrix: a, name: b, ty_name: c };
            let d4 = DiagnosticView::OrphanInput { matrix: a, name: b, ty_name: c };
            let d5 = DiagnosticView::DuplicateMatrixEntry { matrix: a, what: b, name: c };
            let d6 = DiagnosticView::MatrixTypeMismatch { matrix: a, candidate: b, ty_name: c };
            &&& starts(d1, "two benchmarks are both called "@ + q(a)) && says(d1, ": "@ + all)
            &&& starts(d2, "group "@ + q(a)) && says(d2, " has more than one baseline: "@ + all)
            &&& starts(d3, "in group "@ + q(a)) && says(d3, ", "@ + q(b)) && says(
                d3,
                " takes "@ + q(c),
            )
            &&& starts(d4, "in group "@ + q(a)) && says(d4, ", the input "@ + q(b)) && says(
                d4,
                " produces "@ + q(c),
            )
            &&& starts(d5, "group "@ + q(a)) && says(d5, " has two "@ + b) && says(
                d5,
                "s called "@ + q(c),
            )
            &&& starts(d6, "in group "@ + q(a)) && says(d6, ", "@ + q(b)) && says(
                d6,
                " takes a different "@ + q(c),
            )
        }),
{
    lemma_sentence_of_a_shared_name(a, sources);
    lemma_sentence_of_rivals(a, sources);
    lemma_sentence_of_an_orphan_candidate(a, b, c);
    lemma_sentence_of_an_orphan_input(a, b, c);
    lemma_sentence_of_a_repeated_entry(a, b, c);
    lemma_sentence_of_a_mismatch(a, b, c);
}

/// A text that stands between two others is part of the whole.
proof fn lemma_between(before: Seq<char>, part: Seq<char>, after: Seq<char>)
    ensures
        text::has_part(before + part + after, part),
{
    text_laws::law_a_part_stands_between(before + part + after, part);
}

/// What is said of a name that is shared.
proof fn lemma_sentence_of_a_shared_name(a: Seq<char>, sources: Seq<Seq<char>>)
    ensures
        ({
            let q = seq!['`'] + a + seq!['`'];
            let d = (DiagnosticView::DuplicateName { name: a, sources }).sentence();
            &&& text::stands_at(d, "two benchmarks are both called "@ + q, 0)
            &&& text::has_part(d, ": "@ + text::joined(sources, seq![',', ' ']))
        }),
{
    let q = seq!['`'] + a + seq!['`'];
    let none = Seq::<char>::empty();
    reveal_strlit(", ");
    assert(", "@ =~= seq![',', ' ']);
    reveal_strlit("two benchmarks are both called `");
    reveal_strlit("two benchmarks are both called ");
    reveal_strlit("`: ");
    reveal_strlit(": ");
    let all = text::joined(sources, seq![',', ' ']);
    let d = (DiagnosticView::DuplicateName { name: a, sources }).sentence();
    assert(d =~= "two benchmarks are both called "@ + q + ": "@ + all + none + none + none);
    lemma_three_between("two benchmarks are both called "@, q, ": "@, all, none, none, none);
}

/// What is said of baselines that rival.
proof fn lemma_sentence_of_rivals(a: Seq<char>, claimants: Seq<Seq<char>>)
    ensures
        ({
            let q = seq!['`'] + a + seq!['`'];
            let d = (DiagnosticView::ManyBaselines { group: a, claimants }).sentence();
            &&& text::stands_at(d, "group "@ + q, 0)
            &&& text::has_part(
                d,
                " has more than one baseline: "@ + text::joined(claimants, seq![',', ' ']),
            )
        }),
{
    let q = seq!['`'] + a + seq!['`'];
    let none = Seq::<char>::empty();
    reveal_strlit(", ");
    assert(", "@ =~= seq![',', ' ']);
    reveal_strlit("group `");
    reveal_strlit("group ");
    reveal_strlit("` has more than one baseline: ");
    reveal_strlit(" has more than one baseline: ");
    let all = text::joined(claimants, seq![',', ' ']);
    let d = (DiagnosticView::ManyBaselines { group: a, claimants }).sentence();
    assert(d =~= "group "@ + q + " has more than one baseline: "@ + all + none + none + none);
    lemma_three_between("group "@, q, " has more than one baseline: "@, all, none, none, none);
}

/// Three texts in a row, with something before, between and after them.
proof fn lemma_three_between(
    head: Seq<char>,
    a: Seq<char>,
    x: Seq<char>,
    b: Seq<char>,
    y: Seq<char>,
    c: Seq<char>,
    tail: Seq<char>,
)
    ensures
        ({
            let whole = head + a + x + b + y + c + tail;
            &&& text::stands_at(whole, head + a, 0)
            &&& text::has_part(whole, x + b)
            &&& text::has_part(whole, y + c)
        }),
{
    let whole = head + a + x + b + y + c + tail;
    assert(whole.subrange(0, (head + a).len() as int) =~= head + a);
    assert(whole =~= (head + a) + (x + b) + (y + c + tail));
    assert(whole =~= (head + a + x + b) + (y + c) + tail);
    lemma_between(head + a, x + b, y + c + tail);
    lemma_between(head + a + x + b, y + c, tail);
}

/// What is said of a candidate without an input.
proof fn lemma_sentence_of_an_orphan_candidate(a: Seq<char>, b: Seq<char>, c: Seq<char>)
    ensures
        ({
            let q = |s: Seq<char>| seq!['`'] + s + seq!['`'];
            let d = (DiagnosticView::OrphanCandidate { matrix: a, name: b, ty_name: c }).sentence();
            &&& text::stands_at(d, "in group "@ + q(a), 0)
            &&& text::has_part(d, ", "@ + q(b))
            &&& text::has_part(d, " takes "@ + q(c))
        }),
{
    let q = |s: Seq<char>| seq!['`'] + s + seq!['`'];
    reveal_strlit("in group `");
    reveal_strlit("in group ");
    reveal_strlit("`, `");
    reveal_strlit(", ");
    reveal_strlit("` takes `");
    reveal_strlit(" takes ");
    reveal_strlit("` but no input of that type is registered, so it was measured on nothing");
    let end =
        "` but no input of that type is registered, so it was measured on nothing"@.skip(1);
    let d = (DiagnosticView::OrphanCandidate { matrix: a, name: b, ty_name: c }).sentence();
    assert(d =~= "in group "@ + q(a) + ", "@ + q(b) + " takes "@ + q(c) + end);
    lemma_three_between("in group "@, q(a), ", "@, q(b), " takes "@, q(c), end);
}

/// What is said of an input without a candidate.
proof fn lemma_sentence_of_an_orphan_input(a: Seq<char>, b: Seq<char>, c: Seq<char>)
    ensures
        ({
            let q = |s: Seq<char>| seq!['`'] + s + seq!['`'];
            let d = (DiagnosticView::OrphanInput { matrix: a, name: b, ty_name: c }).sentence();
            &&& text::stands_at(d, "in group "@ + q(a), 0)
            &&& text::has_part(d, ", the input "@ + q(b))
            &&& text::has_part(d, " produces "@ + q(c))
        }),
{
    let q = |s: Seq<char>| seq!['`'] + s + seq!['`'];
    reveal_strlit("in group `");
    reveal_strlit("in group ");
    reveal_strlit("`, the input `");
    reveal_strlit(", the input ");
    reveal_strlit("` produces `");
    reveal_strlit(" produces ");
    reveal_strlit("` but no candidate takes that type, so nothing was measured on it");
    let end = "` but no candidate takes that type, so nothing was measured on it"@.skip(1);
    let d = (DiagnosticView::OrphanInput { matrix: a, name: b, ty_name: c }).sentence();
    assert(d =~= "in group "@ + q(a) + ", the input "@ + q(b) + " produces "@ + q(c) + end);
    lemma_three_between("in group "@, q(a), ", the input "@, q(b), " produces "@, q(c), end);
}

/// What is said of an entry that is there twice.
proof fn lemma_sentence_of_a_repeated_entry(a: Seq<char>, b: Seq<char>, c: Seq<char>)
    ensures
        ({
            let q = |s: Seq<char>| seq!['`'] + s + seq!['`'];
            let d = (DiagnosticView::DuplicateMatrixEntry { matrix: a, what: b, name: c }).sentence();
            &&& text::stands_at(d, "group "@ + q(a), 0)
            &&& text::has_part(d, " has two "@ + b)
            &&& text::has_part(d, "s called "@ + q(c))
        }),
{
    let q = |s: Seq<char>| seq!['`'] + s + seq!['`'];
    reveal_strlit("group `");
    reveal_strlit("group ");
    reveal_strlit("` has two ");
    reveal_strlit(" has two ");
    reveal_strlit("s called `");
    reveal_strlit("s called ");
    reveal_strlit("`");
    let none = Seq::<char>::empty();
    let d = (DiagnosticView::DuplicateMatrixEntry { matrix: a, what: b, name: c }).sentence();
    assert(d =~= "group "@ + q(a) + " has two "@ + b + "s called "@ + q(c) + none);
    lemma_three_between("group "@, q(a), " has two "@, b, "s called "@, q(c), none);
}

/// What is said of an entry of another type.
proof fn lemma_sentence_of_a_mismatch(a: Seq<char>, b: Seq<char>, c: Seq<char>)
    ensures
        ({
            let q = |s: Seq<char>| seq!['`'] + s + seq!['`'];
            let d = (DiagnosticView::MatrixTypeMismatch {
                matrix: a,
                candidate: b,
                ty_name: c,
            }).sentence();
            &&& text::stands_at(d, "in group "@ + q(a), 0)
            &&& text::has_part(d, ", "@ + q(b))
            &&& text::has_part(d, " takes a different "@ + q(c))
        }),
{
    let q = |s: Seq<char>| seq!['`'] + s + seq!['`'];
    reveal_strlit("in group `");
    reveal_strlit("in group ");
    reveal_strlit("`, `");
    reveal_strlit(", ");
    reveal_strlit("` takes a different `");
    reveal_strlit(" takes a different ");
    reveal_strlit(
        "` from the one the inputs produce - two types of the same name are still two types",
    );
    let end =
        "` from the one the inputs produce - two types of the same name are still two types"@.skip(
        1,
    );
    let d = (DiagnosticView::MatrixTypeMismatch { matrix: a, candidate: b, ty_name: c }).sentence();
    assert(d =~= "in group "@ + q(a) + ", "@ + q(b) + " takes a different "@ + q(c) + end);
    lemma_three_between("in group "@, q(a), ", "@, q(b), " takes a different "@, q(c), end);
}

} // verus!
