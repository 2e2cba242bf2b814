//! Results laid out as a table: candidates down the side, inputs across.

use crate::lane;
use crate::lane::{Lane, LaneView};
use crate::layout;
use crate::lists;
use crate::report;
use crate::report::{Report, ReportView};
use crate::resolve;
use crate::text;
use crate::timings;
use crate::timings::Timings;
use vstd::prelude::*;

verus! {

/// How one alternative shows itself in a cell: its time, in the unit that
/// suits it, and its difference from the baseline in percent.
#[derive(Debug, Clone, PartialEq, Eq)]
pub struct CellText {
    pub time: String,
    /// Not read for a baseline.
    pub percent: String,
}

/// The values of a [`CellText`].
#[verifier::ext_equal]
pub struct CellTextView {
    pub time: Seq<char>,
    pub percent: Seq<char>,
}

impl View for CellText {
    type V = CellTextView;

    open spec fn view(&self) -> CellTextView {
        CellTextView { time: self.time@, percent: self.percent@ }
    }
}

/// The values of the cells of every entry.
pub open spec fn cell_texts(v: Seq<Vec<CellText>>) -> Seq<Seq<CellTextView>> {
    Seq::new(v.len(), |p: int| Seq::new(v[p]@.len(), |i: int| v[p]@[i]@))
}

/// Whether there is a cell for every alternative of every group in a report.
pub open spec fn covers<S, M>(cells: Seq<Seq<CellTextView>>, r: ReportView<S, M>) -> bool {
    &&& r.well_formed()
    &&& cells.len() == r.found.len()
    &&& forall|p: int|
        0 <= p < r.found.len() ==> match #[trigger] r.found[p] {
            report::Found::Timing(t) => t@.well_formed() && cells[p].len() == t@.timings.len(),
            report::Found::Scaling(_) => true,
        }
}

/// One cell in its place.
#[derive(Debug, Clone, PartialEq, Eq)]
pub struct Placed {
    row: String,
    column: String,
    time: String,
    percent: Option<String>,
}

/// The values of a [`Placed`].
#[verifier::ext_equal]
pub struct PlacedView {
    pub row: Seq<char>,
    pub column: Seq<char>,
    pub time: Seq<char>,
    pub percent: Option<Seq<char>>,
}

impl View for Placed {
    type V = PlacedView;

    closed spec fn view(&self) -> PlacedView {
        PlacedView {
            row: self.row@,
            column: self.column@,
            time: self.time@,
            percent: text::maybe_owned(self.percent),
        }
    }
}

/// The values of a list of placed cells.
pub open spec fn placed_views(v: Seq<Placed>) -> Seq<PlacedView> {
    Seq::new(v.len(), |i: int| v[i]@)
}

/// A difference as a cell shows it: in brackets where it did not clear the
/// threshold. Leaving it out would read as "the same", when it means "not
/// shown to differ".
pub open spec fn percent_shown(changed: bool, percent: Seq<char>) -> Seq<char> {
    if changed {
        percent
    } else {
        "("@ + percent + ")"@
    }
}

/// What the report calls input `k` of a lane.
pub open spec fn entry_name(lane: LaneView, k: int) -> Seq<char> {
    if lane.candidates.len() < 2 {
        lane.lone_name(lane.candidates[0].name, lane.inputs[k].name)
    } else {
        lane.cell_name(lane.inputs[k].name)
    }
}

/// Whether input `k` of a lane was measured.
pub open spec fn was_measured<S, M>(r: ReportView<S, M>, lane: LaneView, k: int) -> bool {
    if lane.candidates.len() < 2 {
        r.lone(entry_name(lane, k)) is Some
    } else {
        r.compared(entry_name(lane, k)) is Some
    }
}

/// The cell of alternative `i` of a group, in a column.
pub open spec fn compared_cell<M>(
    t: timings::TimingsView<M>,
    cells: Seq<CellTextView>,
    column: Seq<char>,
    i: int,
) -> PlacedView {
    PlacedView {
        row: t.names[i],
        column,
        time: cells[i].time,
        percent: if i == 0 {
            None
        } else {
            Some(percent_shown(t.timings[i].changed == Some(true), cells[i].percent))
        },
    }
}

/// The cells of input `k` of a lane.
pub open spec fn column_of<S, M>(
    r: ReportView<S, M>,
    cells: Seq<Seq<CellTextView>>,
    lane: LaneView,
    k: int,
) -> Seq<PlacedView> {
    let name = entry_name(lane, k);
    let p = report::place(r.names, name);
    if !was_measured(r, lane, k) {
        Seq::empty()
    } else if lane.candidates.len() < 2 {
        seq![
            PlacedView {
                row: lane.candidates[0].name,
                column: lane.inputs[k].name,
                time: cells[p][0].time,
                percent: None,
            },
        ]
    } else {
        let t = r.compared(name)->0@;
        Seq::new(
            t.timings.len(),
            |i: int| compared_cell(t, cells[p], lane.inputs[k].name, i),
        )
    }
}

/// Candidates down the side, inputs across, and what was measured in between.
#[derive(Debug, Clone, PartialEq, Eq)]
pub struct Grid {
    rows: Vec<String>,
    columns: Vec<String>,
    placed: Vec<Placed>,
}

/// The values of a [`Grid`].
#[verifier::ext_equal]
pub struct GridView {
    pub rows: Seq<Seq<char>>,
    pub columns: Seq<Seq<char>>,
    pub placed: Seq<PlacedView>,
}

impl View for Grid {
    type V = GridView;

    closed spec fn view(&self) -> GridView {
        GridView {
            rows: text::strings(self.rows@),
            columns: text::strings(self.columns@),
            placed: placed_views(self.placed@),
        }
    }
}

/// The cell that stands in a row and column: the last one put there.
pub open spec fn cell_at(placed: Seq<PlacedView>, row: Seq<char>, column: Seq<char>) -> Option<
    PlacedView,
>
    decreases placed.len(),
{
    if placed.len() == 0 {
        None
    } else if placed.last().row == row && placed.last().column == column {
        Some(placed.last())
    } else {
        cell_at(placed.drop_last(), row, column)
    }
}

/// How many bytes an optional text takes.
pub open spec fn maybe_bytes(s: Option<Seq<char>>) -> nat {
    match s {
        Some(s) => layout::bytes(s),
        None => 0,
    }
}

/// Whether a difference is in brackets.
pub open spec fn bracketed(percent: Option<Seq<char>>) -> bool {
    match percent {
        Some(p) => p.len() > 0 && p[0] == '(',
        None => false,
    }
}

impl GridView {
    /// The grid of a lane: its candidates, and those of its inputs that were
    /// measured.
    pub open spec fn of_lane<S, M>(
        r: ReportView<S, M>,
        cells: Seq<Seq<CellTextView>>,
        lane: LaneView,
    ) -> GridView {
        GridView {
            rows: lists::names_of(lane.candidates),
            columns: lane::positions(lane.inputs.len()).filter_map(
                |k: int|
                    if was_measured(r, lane, k) {
                        Some(lane.inputs[k].name)
                    } else {
                        None
                    },
            ),
            placed: lists::gathered(
                lane::positions(lane.inputs.len()),
                |k: int| column_of(r, cells, lane, k),
            ),
        }
    }

    /// The time shown in a cell, or a dash.
    pub open spec fn time_at(self, row: Seq<char>, column: Seq<char>) -> Seq<char> {
        match cell_at(self.placed, row, column) {
            Some(c) => c.time,
            None => "-"@,
        }
    }

    /// The difference shown under a cell.
    pub open spec fn percent_at(self, row: Seq<char>, column: Seq<char>) -> Option<Seq<char>> {
        match cell_at(self.placed, row, column) {
            Some(c) => c.percent,
            None => None,
        }
    }

    /// The longest text of a column over its first `n` rows, in bytes.
    pub open spec fn longest(self, column: Seq<char>, n: int) -> nat
        decreases n,
    {
        if n <= 0 {
            layout::bytes(column)
        } else {
            layout::wider(
                layout::wider(
                    self.longest(column, n - 1),
                    layout::bytes(self.time_at(self.rows[n - 1], column)),
                ),
                maybe_bytes(self.percent_at(self.rows[n - 1], column)),
            )
        }
    }

    /// How wide a column is.
    pub open spec fn width(self, i: int) -> nat {
        self.longest(self.columns[i], self.rows.len() as int) + 2
    }

    /// How wide the names at the side are.
    pub open spec fn label_width(self) -> nat {
        layout::widest(self.rows) + 2
    }

    /// The names of the first `n` columns.
    pub open spec fn header(self, n: int) -> Seq<char>
        decreases n,
    {
        if n <= 0 {
            Seq::empty()
        } else {
            self.header(n - 1) + layout::right(self.columns[n - 1], self.width(n - 1))
        }
    }

    /// The times of a row, in the first `n` columns.
    pub open spec fn values(self, row: Seq<char>, n: int) -> Seq<char>
        decreases n,
    {
        if n <= 0 {
            Seq::empty()
        } else {
            self.values(row, n - 1) + layout::right(
                self.time_at(row, self.columns[n - 1]),
                self.width(n - 1),
            )
        }
    }

    /// The differences of a row, in the first `n` columns.
    pub open spec fn percents(self, row: Seq<char>, n: int) -> Seq<char>
        decreases n,
    {
        if n <= 0 {
            Seq::empty()
        } else {
            self.percents(row, n - 1) + match self.percent_at(row, self.columns[n - 1]) {
                Some(p) => layout::right(p, self.width(n - 1)),
                None => layout::spaces(self.width(n - 1)),
            }
        }
    }

    /// Whether a row shows a difference in its first `n` columns.
    pub open spec fn has_percent(self, row: Seq<char>, n: int) -> bool
        decreases n,
    {
        n > 0 && (self.has_percent(row, n - 1) || self.percent_at(
            row,
            self.columns[n - 1],
        ) is Some)
    }

    /// Whether a row shows a difference in brackets in its first `n` columns.
    pub open spec fn has_bracket(self, row: Seq<char>, n: int) -> bool
        decreases n,
    {
        n > 0 && (self.has_bracket(row, n - 1) || bracketed(
            self.percent_at(row, self.columns[n - 1]),
        ))
    }

    /// One row: its times, and under them its differences if it has any.
    pub open spec fn row_text(self, row: Seq<char>) -> Seq<char> {
        let n = self.columns.len() as int;
        "  "@ + layout::left(row, layout::widest(self.rows)) + self.values(row, n) + "\n"@ + if self.has_percent(
            row,
            n,
        ) {
            layout::spaces(self.label_width()) + text::trimmed_end(self.percents(row, n)) + "\n"@
        } else {
            Seq::empty()
        }
    }

    /// The first `n` rows.
    pub open spec fn body(self, n: int) -> Seq<char>
        decreases n,
    {
        if n <= 0 {
            Seq::empty()
        } else {
            self.body(n - 1) + self.row_text(self.rows[n - 1])
        }
    }

    /// Whether one of the first `n` rows shows a difference in brackets.
    pub open spec fn any_bracket(self, n: int) -> bool
        decreases n,
    {
        n > 0 && (self.any_bracket(n - 1) || self.has_bracket(
            self.rows[n - 1],
            self.columns.len() as int,
        ))
    }

    /// The whole grid as it is printed.
    pub open spec fn shown(self, group: Seq<char>, ty: Seq<char>) -> Seq<char> {
        group + "  ("@ + ty + ")  baseline: "@ + if self.rows.len() > 0 {
            self.rows[0]
        } else {
            "-"@
        } + "\n"@ + layout::spaces(self.label_width()) + self.header(self.columns.len() as int)
            + "\n"@ + self.body(self.rows.len() as int) + if self.any_bracket(
            self.rows.len() as int,
        ) {
            "  (percentages in brackets did not clear this run's threshold)\n"@
        } else {
            Seq::empty()
        }
    }
}

/// The larger of two widths.
fn larger(a: usize, b: usize) -> (n: usize)
    ensures
        n == layout::wider(a as nat, b as nat),
{
    if a < b {
        b
    } else {
        a
    }
}

/// A text never has more characters than bytes.
pub proof fn lemma_chars_at_most_bytes(s: Seq<char>)
    ensures
        s.len() <= layout::bytes(s),
    decreases s.len(),
{
    if s.len() > 0 {
        lemma_chars_at_most_bytes(s.drop_first());
    }
}

/// A column two wider than its longest text starts with two spaces.
proof fn lemma_two_wider(s: Seq<char>, width: nat)
    requires
        layout::bytes(s) <= width,
    ensures
        layout::right(s, width + 2) == "  "@ + layout::right(s, width),
        layout::spaces(width + 2) == "  "@ + layout::spaces(width),
{
    lemma_chars_at_most_bytes(s);
    reveal_strlit("  ");
    assert(layout::right(s, width + 2) =~= "  "@ + layout::right(s, width));
    assert(layout::spaces(width + 2) =~= "  "@ + layout::spaces(width));
}

/// Every text of a column fits the longest.
pub proof fn lemma_longest(g: GridView, column: Seq<char>, n: int, j: int)
    requires
        n <= g.rows.len(),
    ensures
        layout::bytes(column) <= g.longest(column, n),
        0 <= j < n ==> layout::bytes(g.time_at(g.rows[j], column)) <= g.longest(column, n),
        0 <= j < n ==> maybe_bytes(g.percent_at(g.rows[j], column)) <= g.longest(column, n),
    decreases n,
{
    if n > 0 {
        lemma_longest(g, column, n - 1, j);
    }
}

impl Grid {
    /// The time and the difference shown in a cell.
    fn value(&self, row: &str, column: &str) -> (out: (&str, Option<&str>))
        ensures
            out.0@ == self@.time_at(row@, column@),
            (match out.1 {
                Some(p) => Some(p@),
                None => None,
            }) == self@.percent_at(row@, column@),
    {
        let ghost all = placed_views(self.placed@);
        let mut i: usize = self.placed.len();
        assert(all.take(i as int) =~= all);
        while i > 0
            invariant
                i <= self.placed.len(),
                all == placed_views(self.placed@),
                self@.placed == all,
                cell_at(all, row@, column@) == cell_at(all.take(i as int), row@, column@),
            decreases i,
        {
            let c = &self.placed[i - 1];
            assert(all.take(i as int).last() == c@);
            assert(all.take(i as int).drop_last() =~= all.take(i - 1));
            if text::same_text(c.row.as_str(), row) && text::same_text(c.column.as_str(), column) {
                let percent: Option<&str> = match &c.percent {
                    Some(p) => Some(p.as_str()),
                    None => None,
                };
                return (c.time.as_str(), percent);
            }
            i -= 1;
        }
        ("-", None)
    }

    /// The longest text of every column, in bytes.
    fn widths(&self) -> (widths: Vec<usize>)
        ensures
            widths@.len() == self@.columns.len(),
            forall|i: int|
                0 <= i < widths@.len() ==> #[trigger] widths@[i] == self@.longest(
                    self@.columns[i],
                    self@.rows.len() as int,
                ),
    {
        let mut widths: Vec<usize> = Vec::new();
        let mut i: usize = 0;
        while i < self.columns.len()
            invariant
                i <= self.columns.len(),
                self@.columns == text::strings(self.columns@),
                self@.rows == text::strings(self.rows@),
                widths@.len() == i,
                forall|k: int|
                    0 <= k < i ==> #[trigger] widths@[k] == self@.longest(
                        self@.columns[k],
                        self@.rows.len() as int,
                    ),
            decreases self.columns.len() - i,
        {
            let column = self.columns[i].as_str();
            let mut width: usize = layout::byte_length(column);
            let mut j: usize = 0;
            while j < self.rows.len()
                invariant
                    j <= self.rows.len(),
                    self@.rows == text::strings(self.rows@),
                    width == self@.longest(column@, j as int),
                decreases self.rows.len() - j,
            {
                let (v, p) = self.value(self.rows[j].as_str(), column);
                width = larger(width, layout::byte_length(v));
                let below: usize = match p {
                    Some(p) => layout::byte_length(p),
                    None => 0,
                };
                width = larger(width, below);
                j += 1;
            }
            widths.push(width);
            i += 1;
        }
        widths
    }

    /// Append one row, and say whether it shows a difference in brackets.
    fn append_row(&self, out: &mut String, j: usize, label: usize, widths: &Vec<usize>) -> (
        bracket: bool)
        requires
            j < self@.rows.len(),
            label == layout::widest(self@.rows),
            widths@.len() == self@.columns.len(),
            forall|i: int|
                0 <= i < widths@.len() ==> #[trigger] widths@[i] == self@.longest(
                    self@.columns[i],
                    self@.rows.len() as int,
                ),
        ensures
            final(out)@ == old(out)@ + self@.row_text(self@.rows[j as int]),
            bracket == self@.has_bracket(self@.rows[j as int], self@.columns.len() as int),
    {
        let row = self.rows[j].as_str();
        let ghost start = out@;
        let ghost head = "  "@ + layout::left(row@, label as nat);
        out.append("  ");
        layout::append_left(out, row, label);
        assert(out@ =~= start + head + self@.values(row@, 0));
        let mut percents = String::new();
        let mut any_percent: bool = false;
        let mut bracket: bool = false;
        let mut i: usize = 0;
        while i < self.columns.len()
            invariant
                i <= self.columns.len(),
                j < self@.rows.len(),
                row@ == self@.rows[j as int],
                self@.columns == text::strings(self.columns@),
                widths@.len() == self@.columns.len(),
                forall|i: int|
                    0 <= i < widths@.len() ==> #[trigger] widths@[i] == self@.longest(
                        self@.columns[i],
                        self@.rows.len() as int,
                    ),
                out@ == start + head + self@.values(row@, i as int),
                percents@ == self@.percents(row@, i as int),
                any_percent == self@.has_percent(row@, i as int),
                bracket == self@.has_bracket(row@, i as int),
            decreases self.columns.len() - i,
        {
            let column = self.columns[i].as_str();
            let (v, p) = self.value(row, column);
            let width: usize = widths[i];
            let ghost before = out@;
            let ghost under = percents@;
            proof {
                lemma_longest(self@, column@, self@.rows.len() as int, j as int);
                lemma_two_wider(v@, width as nat);
            }
            out.append("  ");
            layout::append_right(out, v, width);
            assert(out@ =~= before + layout::right(v@, (width + 2) as nat));
            assert(out@ =~= start + head + self@.values(row@, i + 1));
            percents.append("  ");
            match p {
                Some(p) => {
                    proof {
                        lemma_two_wider(p@, width as nat);
                    }
                    any_percent = true;
                    if starts_with_bracket(p) {
                        bracket = true;
                    }
                    layout::append_right(&mut percents, p, width);
                    assert(percents@ =~= under + layout::right(p@, (width + 2) as nat));
                },
                None => {
                    layout::append_spaces(&mut percents, width);
                    assert(percents@ =~= under + layout::spaces((width + 2) as nat));
                },
            }
            i += 1;
        }
        let ghost values = self@.values(row@, i as int);
        out.append("\n");
        assert(out@ =~= start + head + values + "\n"@);
        if any_percent {
            let ghost before = out@;
            out.append("  ");
            layout::append_spaces(out, label);
            out.append(text::trim_end(percents.as_str()));
            out.append("\n");
            proof {
                lemma_empty_is_narrow(label as nat);
                lemma_two_wider(Seq::empty(), label as nat);
            }
            assert(out@ =~= before + layout::spaces((label + 2) as nat) + text::trimmed_end(
                percents@,
            ) + "\n"@);
        }
        assert(out@ =~= start + self@.row_text(row@));
        bracket
    }

    /// The whole grid as it is printed.
    pub fn render(&self, group: &str, ty_name: &str) -> (out: String)
        ensures
            out@ == self@.shown(group@, ty_name@),
    {
        let label: usize = layout::widest_of(&text::borrowed(&self.rows));
        let widths = self.widths();
        let ghost n = self@.columns.len() as int;
        let mut out = group.to_owned();
        out.append("  (");
        out.append(ty_name);
        out.append(")  baseline: ");
        if self.rows.len() > 0 {
            out.append(self.rows[0].as_str());
        } else {
            out.append("-");
        }
        out.append("\n");
        out.append("  ");
        layout::append_spaces(&mut out, label);
        proof {
            lemma_empty_is_narrow(label as nat);
            lemma_two_wider(Seq::empty(), label as nat);
        }
        let ghost head = group@ + "  ("@ + ty_name@ + ")  baseline: "@ + if self@.rows.len() > 0 {
            self@.rows[0]
        } else {
            "-"@
        } + "\n"@ + layout::spaces(self@.label_width());
        assert(out@ =~= head + self@.header(0));
        let mut i: usize = 0;
        while i < self.columns.len()
            invariant
                i <= self.columns.len(),
                self@.columns == text::strings(self.columns@),
                widths@.len() == self@.columns.len(),
                forall|i: int|
                    0 <= i < widths@.len() ==> #[trigger] widths@[i] == self@.longest(
                        self@.columns[i],
                        self@.rows.len() as int,
                    ),
                out@ == head + self@.header(i as int),
            decreases self.columns.len() - i,
        {
            let ghost before = out@;
            let column = self.columns[i].as_str();
            proof {
                lemma_longest(self@, column@, self@.rows.len() as int, 0);
                lemma_two_wider(column@, widths@[i as int] as nat);
            }
            out.append("  ");
            layout::append_right(&mut out, column, widths[i]);
            assert(out@ =~= before + layout::right(column@, (widths@[i as int] + 2) as nat));
            assert(out@ =~= head + self@.header(i + 1));
            i += 1;
        }
        out.append("\n");
        let ghost top = head + self@.header(n) + "\n"@;
        assert(out@ =~= top + self@.body(0));
        let mut any_bracket: bool = false;
        let mut j: usize = 0;
        while j < self.rows.len()
            invariant
                j <= self.rows.len(),
                self@.rows == text::strings(self.rows@),
                label == layout::widest(self@.rows),
                n == self@.columns.len(),
                widths@.len() == self@.columns.len(),
                forall|i: int|
                    0 <= i < widths@.len() ==> #[trigger] widths@[i] == self@.longest(
                        self@.columns[i],
                        self@.rows.len() as int,
                    ),
                out@ == top + self@.body(j as int),
                any_bracket == self@.any_bracket(j as int),
            decreases self.rows.len() - j,
        {
            let ghost before = out@;
            if self.append_row(&mut out, j, label, &widths) {
                any_bracket = true;
            }
            assert(out@ =~= top + self@.body(j + 1));
            j += 1;
        }
        if any_bracket {
            out.append("  (percentages in brackets did not clear this run's threshold)\n");
        }
        assert(out@ =~= self@.shown(group@, ty_name@));
        out
    }
}

/// No text takes no bytes.
proof fn lemma_empty_is_narrow(width: nat)
    ensures
        layout::bytes(Seq::empty()) <= width,
{
}

/// Whether a text starts with a bracket.
fn starts_with_bracket(s: &str) -> (out: bool)
    ensures
        out == bracketed(Some(s@)),
{
    let c = text::chars_of(s);
    c.len() > 0 && c[0] == '('
}

/// Place the cells of a lane's input that was measured, if it was.
fn place_column<S, M>(
    placed: &mut Vec<Placed>,
    report: &Report<S, M>,
    cells: &Vec<Vec<CellText>>,
    lane: &Lane,
    k: usize,
) -> (measured: Option<String>)
    requires
        covers(cell_texts(cells@), report@),
        lane@.candidates.len() > 0,
        k < lane@.inputs.len(),
    ensures
        placed_views(final(placed)@) == placed_views(old(placed)@) + column_of(
            report@,
            cell_texts(cells@),
            lane@,
            k as int,
        ),
        text::maybe_owned(measured) == if was_measured(report@, lane@, k as int) {
            Some(entry_name(lane@, k as int))
        } else {
            None
        },
{
    let ghost before = placed_views(placed@);
    let ghost r = report@;
    let ghost texts = cell_texts(cells@);
    let ghost l = lane@;
    let input = &lane.inputs[k];
    assert(l.inputs[k as int] == input@);
    assert(before + Seq::empty() =~= before);
    if lane.candidates.len() < 2 {
        let candidate = &lane.candidates[0];
        assert(l.candidates[0] == candidate@);
        let entry = lane.flat_name(candidate, input);
        if report.stats(entry.as_str()).is_none() {
            return None;
        }
        let p: usize = report.position(entry.as_str());
        assert(texts[p as int] == Seq::new(cells@[p as int]@.len(), |i: int| cells@[p as int]@[i]@));
        let cell = Placed {
            row: candidate.name.as_str().to_owned(),
            column: input.name.as_str().to_owned(),
            time: cells[p][0].time.as_str().to_owned(),
            percent: None,
        };
        placed.push(cell);
        assert(placed_views(placed@) =~= before + column_of(r, texts, l, k as int));
        Some(entry)
    } else {
        let entry = lane.comparison_name(input);
        match report.comparison(entry.as_str()) {
            None => None,
            Some(t) => {
                let p: usize = report.position(entry.as_str());
                assert(texts[p as int] == Seq::new(
                    cells@[p as int]@.len(),
                    |i: int| cells@[p as int]@[i]@,
                ));
                place_comparison(placed, t, &cells[p], input.name.as_str(), Ghost(texts[p as int]));
                assert(placed_views(placed@) =~= before + column_of(r, texts, l, k as int));
                Some(entry)
            },
        }
    }
}

/// Place a cell for every alternative of a comparison.
fn place_comparison<M>(
    placed: &mut Vec<Placed>,
    t: &Timings<M>,
    cells: &Vec<CellText>,
    column: &str,
    Ghost(texts): Ghost<Seq<CellTextView>>,
)
    requires
        t@.well_formed(),
        texts == Seq::new(cells@.len(), |i: int| cells@[i]@),
        texts.len() == t@.timings.len(),
    ensures
        placed_views(final(placed)@) == placed_views(old(placed)@) + Seq::new(
            t@.timings.len(),
            |i: int| compared_cell(t@, texts, column@, i),
        ),
{
    let ghost before = placed_views(placed@);
    let ghost whole = Seq::new(t@.timings.len(), |i: int| compared_cell(t@, texts, column@, i));
    let mut i: usize = 0;
    assert(before + whole.take(0) =~= before);
    while i < t.len()
        invariant
            i <= t@.timings.len(),
            t@.well_formed(),
            texts == Seq::new(cells@.len(), |i: int| cells@[i]@),
            texts.len() == t@.timings.len(),
            whole == Seq::new(t@.timings.len(), |i: int| compared_cell(t@, texts, column@, i)),
            placed_views(placed@) == before + whole.take(i as int),
        decreases t@.timings.len() - i,
    {
        let percent: Option<String> = if i == 0 {
            None
        } else if t.timing(i).is_changed() {
            Some(cells[i].percent.as_str().to_owned())
        } else {
            let mut p = "(".to_owned();
            p.append(cells[i].percent.as_str());
            p.append(")");
            Some(p)
        };
        let cell = Placed {
            row: t.name(i).to_owned(),
            column: column.to_owned(),
            time: cells[i].time.as_str().to_owned(),
            percent,
        };
        assert(cell@ == whole[i as int]);
        let ghost had = placed_views(placed@);
        placed.push(cell);
        assert(placed_views(placed@) =~= had.push(cell@));
        assert(before + whole.take(i + 1) =~= (before + whole.take(i as int)).push(
            whole[i as int],
        ));
        i += 1;
    }
    assert(whole.take(i as int) =~= whole);
}

/// The entries of a lane that were measured.
pub open spec fn measured_entries<S, M>(r: ReportView<S, M>, lane: LaneView) -> Seq<Seq<char>> {
    lane::positions(lane.inputs.len()).filter_map(
        |k: int|
            if was_measured(r, lane, k) {
                Some(entry_name(lane, k))
            } else {
                None
            },
    )
}

/// The grid of a lane, and the names of the entries it shows.
pub fn grid_of<S, M>(report: &Report<S, M>, cells: &Vec<Vec<CellText>>, lane: &Lane) -> (out: (
    Grid,
    Vec<String>,
))
    requires
        covers(cell_texts(cells@), report@),
        lane@.candidates.len() > 0,
    ensures
        out.0@ == GridView::of_lane(report@, cell_texts(cells@), lane@),
        text::strings(out.1@) == measured_entries(report@, lane@),
{
    let ghost r = report@;
    let ghost texts = cell_texts(cells@);
    let ghost l = lane@;
    let ghost all = lane::positions(l.inputs.len());
    let ghost name_of = |k: int|
        if was_measured(r, l, k) {
            Some(l.inputs[k].name)
        } else {
            None
        };
    let ghost entry_of = |k: int|
        if was_measured(r, l, k) {
            Some(entry_name(l, k))
        } else {
            None
        };
    let ghost cells_of = |k: int| column_of(r, texts, l, k);
    let mut columns: Vec<String> = Vec::new();
    let mut entries: Vec<String> = Vec::new();
    let mut placed: Vec<Placed> = Vec::new();
    let mut k: usize = 0;
    assert(all.take(0).filter_map(name_of) =~= Seq::empty());
    assert(all.take(0).filter_map(entry_of) =~= Seq::empty());
    assert(lists::gathered(all.take(0), cells_of) =~= Seq::empty());
    assert(text::strings(columns@) =~= Seq::empty());
    assert(text::strings(entries@) =~= Seq::empty());
    assert(placed_views(placed@) =~= Seq::empty());
    while k < lane.inputs.len()
        invariant
            k <= lane.inputs.len(),
            r == report@,
            texts == cell_texts(cells@),
            l == lane@,
            l.inputs == resolve::named_views(lane.inputs@),
            all == lane::positions(l.inputs.len()),
            covers(texts, r),
            l.candidates.len() > 0,
            name_of == (|k: int|
                if was_measured(r, l, k) {
                    Some(l.inputs[k].name)
                } else {
                    None
                }),
            entry_of == (|k: int|
                if was_measured(r, l, k) {
                    Some(entry_name(l, k))
                } else {
                    None
                }),
            cells_of == (|k: int| column_of(r, texts, l, k)),
            text::strings(columns@) == all.take(k as int).filter_map(name_of),
            text::strings(entries@) == all.take(k as int).filter_map(entry_of),
            placed_views(placed@) == lists::gathered(all.take(k as int), cells_of),
        decreases lane.inputs.len() - k,
    {
        proof {
            lists::lemma_filter_map_step(all, name_of, k as int);
            lists::lemma_filter_map_step(all, entry_of, k as int);
            lists::lemma_gathered_step(all, cells_of, k as int);
        }
        let ghost had_columns = text::strings(columns@);
        let ghost had_entries = text::strings(entries@);
        match place_column(&mut placed, report, cells, lane, k) {
            Some(entry) => {
                columns.push(lane.inputs[k].name.as_str().to_owned());
                entries.push(entry);
                assert(text::strings(columns@) =~= had_columns.push(l.inputs[k as int].name));
                assert(text::strings(entries@) =~= had_entries.push(entry_name(l, k as int)));
            },
            None => {},
        }
        k += 1;
    }
    assert(all.take(k as int) =~= all);
    let rows = text::owned(&lists::borrow_names(&lane.candidates));
    (Grid { rows, columns, placed }, entries)
}

/// One matrix lane as a grid: candidates down the side, inputs across.
///
/// `None` when nothing in the lane was measured: an empty grid says less than
/// no grid at all. The names it did show are added to `gridded`, so that they
/// are not printed again.
pub fn grid<S, M>(
    report: &Report<S, M>,
    cells: &Vec<Vec<CellText>>,
    lane: &Lane,
    gridded: &mut Vec<String>,
) -> (out: Option<String>)
    requires
        covers(cell_texts(cells@), report@),
        lane@.candidates.len() > 0,
    ensures
        text::maybe_owned(out) == grid_text(report@, cell_texts(cells@), lane@),
        text::strings(final(gridded)@) == text::strings(old(gridded)@) + measured_entries(
            report@,
            lane@,
        ),
{
    let (g, entries) = grid_of(report, cells, lane);
    let ghost before = text::strings(gridded@);
    let mut i: usize = 0;
    let ghost more = text::strings(entries@);
    assert(before + more.take(0) =~= before);
    while i < entries.len()
        invariant
            i <= entries.len(),
            more == text::strings(entries@),
            text::strings(gridded@) == before + more.take(i as int),
        decreases entries.len() - i,
    {
        let ghost had = text::strings(gridded@);
        gridded.push(entries[i].as_str().to_owned());
        assert(text::strings(gridded@) =~= had.push(more[i as int]));
        assert(before + more.take(i + 1) =~= (before + more.take(i as int)).push(more[i as int]));
        i += 1;
    }
    assert(more.take(i as int) =~= more);
    if g.columns.len() == 0 {
        None
    } else {
        Some(g.render(lane.group, lane.ty_name))
    }
}

/// What a lane's grid prints, if any of it was measured.
pub open spec fn grid_text<S, M>(
    r: ReportView<S, M>,
    cells: Seq<Seq<CellTextView>>,
    lane: LaneView,
) -> Option<Seq<char>> {
    let g = GridView::of_lane(r, cells, lane);
    if g.columns.len() == 0 {
        None
    } else {
        Some(g.shown(lane.group, lane.ty_name))
    }
}

/// What a lane adds to a table: its grid, where it has several inputs.
pub open spec fn lane_text<S, M>(
    r: ReportView<S, M>,
    cells: Seq<Seq<CellTextView>>,
    lane: LaneView,
) -> Seq<char> {
    if lane.inputs.len() < 2 {
        Seq::empty()
    } else {
        match grid_text(r, cells, lane) {
            Some(s) => s + "\n"@,
            None => Seq::empty(),
        }
    }
}

/// The entries a lane's grid shows, where it has one.
pub open spec fn lane_entries<S, M>(r: ReportView<S, M>, lane: LaneView) -> Seq<Seq<char>> {
    if lane.inputs.len() < 2 {
        Seq::empty()
    } else {
        measured_entries(r, lane)
    }
}

/// Every entry that some grid shows.
pub open spec fn gridded_entries<S, M>(r: ReportView<S, M>, lanes: Seq<LaneView>) -> Seq<Seq<char>> {
    lists::gathered(lanes, |l: LaneView| lane_entries(r, l))
}

/// The entries that no grid shows.
pub open spec fn rest<S, M>(r: ReportView<S, M>, lanes: Seq<LaneView>) -> Seq<Seq<char>> {
    r.names.filter(|name: Seq<char>| !gridded_entries(r, lanes).contains(name))
}

/// One of those entries as it is printed.
pub open spec fn rest_line(
    names: Seq<Seq<char>>,
    shown: Seq<Seq<char>>,
    width: nat,
    name: Seq<char>,
) -> Seq<char> {
    report::entry_text(name, shown[report::place(names, name)], width) + "\n"@
}

/// Those entries as they are printed.
pub open spec fn rest_text(
    names: Seq<Seq<char>>,
    shown: Seq<Seq<char>>,
    rest: Seq<Seq<char>>,
) -> Seq<char> {
    lists::gathered(
        rest,
        |name: Seq<char>| rest_line(names, shown, layout::widest(rest), name),
    )
}

/// A report as a table: lanes with several inputs as grids, everything else
/// as the report prints it.
pub open spec fn table_text<S, M>(
    r: ReportView<S, M>,
    shown: Seq<Seq<char>>,
    cells: Seq<Seq<CellTextView>>,
    lanes: Seq<LaneView>,
) -> Seq<char> {
    if lanes.len() == 0 {
        report::report_text(r.names, shown) + "\n"@
    } else {
        lists::gathered(lanes, |l: LaneView| lane_text(r, cells, l)) + rest_text(
            r.names,
            shown,
            rest(r, lanes),
        )
    }
}

/// Whether a text is in a list.
fn is_listed(all: &Vec<String>, s: &str) -> (out: bool)
    ensures
        out == text::strings(all@).contains(s@),
{
    let ghost t = text::strings(all@);
    let mut i: usize = 0;
    while i < all.len()
        invariant
            i <= all.len(),
            t == text::strings(all@),
            forall|k: int| 0 <= k < i ==> #[trigger] t[k] != s@,
        decreases all.len() - i,
    {
        if text::same_text(all[i].as_str(), s) {
            assert(t[i as int] == s@);
            return true;
        }
        i += 1;
    }
    false
}

/// Print a report as a table.
///
/// A lane with one input is a grid of one column, which says nothing a grid
/// is for, so only a lane with several inputs becomes one. Whatever no grid
/// shows is printed the way the report would print it.
pub fn table<S, M>(
    report: &Report<S, M>,
    shown: &Vec<String>,
    cells: &Vec<Vec<CellText>>,
    lanes: &Vec<Lane>,
) -> (out: String)
    requires
        covers(cell_texts(cells@), report@),
        shown@.len() == report@.names.len(),
        forall|l: int| 0 <= l < lanes@.len() ==> (#[trigger] lanes@[l])@.candidates.len() > 0,
    ensures
        out@ == table_text(
            report@,
            text::strings(shown@),
            cell_texts(cells@),
            lane::lane_views(lanes@),
        ),
{
    if lanes.len() == 0 {
        let mut out = report.render(shown);
        out.append("\n");
        return out;
    }
    let ghost r = report@;
    let ghost texts = cell_texts(cells@);
    let ghost all = lane::lane_views(lanes@);
    let ghost text_of = |l: LaneView| lane_text(r, texts, l);
    let ghost entries_of = |l: LaneView| lane_entries(r, l);
    let mut out = String::new();
    let mut gridded: Vec<String> = Vec::new();
    let mut i: usize = 0;
    assert(lists::gathered(all.take(0), text_of) =~= Seq::empty());
    assert(lists::gathered(all.take(0), entries_of) =~= Seq::empty());
    assert(text::strings(gridded@) =~= Seq::empty());
    while i < lanes.len()
        invariant
            i <= lanes.len(),
            r == report@,
            texts == cell_texts(cells@),
            all == lane::lane_views(lanes@),
            covers(texts, r),
            forall|l: int| 0 <= l < lanes@.len() ==> (#[trigger] lanes@[l])@.candidates.len() > 0,
            text_of == (|l: LaneView| lane_text(r, texts, l)),
            entries_of == (|l: LaneView| lane_entries(r, l)),
            out@ == lists::gathered(all.take(i as int), text_of),
            text::strings(gridded@) == lists::gathered(all.take(i as int), entries_of),
        decreases lanes.len() - i,
    {
        proof {
            lists::lemma_gathered_step(all, text_of, i as int);
            lists::lemma_gathered_step(all, entries_of, i as int);
        }
        let ghost before = out@;
        let ghost had = text::strings(gridded@);
        let l = &lanes[i];
        if l.inputs.len() >= 2 {
            match grid(report, cells, l, &mut gridded) {
                Some(g) => {
                    out.append(g.as_str());
                    out.append("\n");
                },
                None => {},
            }
        }
        assert(out@ =~= before + lane_text(r, texts, l@));
        assert(text::strings(gridded@) =~= had + lane_entries(r, l@));
        i += 1;
    }
    assert(all.take(i as int) =~= all);
    let ghost keep = |name: Seq<char>| !gridded_entries(r, all).contains(name);
    let names = report.names();
    let mut left: Vec<&str> = Vec::new();
    let mut j: usize = 0;
    proof {
        reveal(Seq::filter);
    }
    assert(r.names.take(0).filter(keep) =~= Seq::empty());
    assert(text::texts(left@) =~= Seq::empty());
    while j < names.len()
        invariant
            j <= names.len(),
            text::texts(names@) == r.names,
            text::strings(gridded@) == gridded_entries(r, all),
            keep == (|name: Seq<char>| !gridded_entries(r, all).contains(name)),
            text::texts(left@) == r.names.take(j as int).filter(keep),
        decreases names.len() - j,
    {
        proof {
            lists::lemma_filter_step(r.names, keep, j as int);
        }
        let ghost had = text::texts(left@);
        assert(r.names[j as int] == names@[j as int]@);
        if !is_listed(&gridded, names[j]) {
            left.push(names[j]);
            assert(text::texts(left@) =~= had.push(r.names[j as int]));
        }
        j += 1;
    }
    assert(r.names.take(j as int) =~= r.names);
    let ghost remaining = rest(r, all);
    let ghost s = text::strings(shown@);
    let width: usize = layout::widest_of(&left);
    let ghost line = |name: Seq<char>| rest_line(r.names, s, width as nat, name);
    let ghost grids = out@;
    let mut k: usize = 0;
    assert(lists::gathered(remaining.take(0), line) =~= Seq::empty());
    assert(out@ =~= grids + Seq::empty());
    while k < left.len()
        invariant
            k <= left.len(),
            r == report@,
            r.well_formed(),
            s == text::strings(shown@),
            shown@.len() == r.names.len(),
            remaining == text::texts(left@),
            remaining == r.names.filter(keep),
            line == (|name: Seq<char>| rest_line(r.names, s, width as nat, name)),
            out@ == grids + lists::gathered(remaining.take(k as int), line),
        decreases left.len() - k,
    {
        proof {
            lists::lemma_gathered_step(remaining, line, k as int);
        }
        let ghost before = out@;
        let name = left[k];
        let p: usize = report.position(name);
        proof {
            assert(name@ == remaining[k as int]);
            lemma_filtered_is_held(r.names, keep, k as int);
            report::lemma_place(r.names, name@);
        }
        report::append_entry(&mut out, name, shown[p].as_str(), width);
        out.append("\n");
        assert(out@ =~= before + rest_line(r.names, s, width as nat, name@));
        assert(out@ =~= grids + lists::gathered(remaining.take(k + 1), line));
        k += 1;
    }
    assert(remaining.take(k as int) =~= remaining);
    out
}

/// What a filter keeps was there before.
proof fn lemma_filtered_is_held(names: Seq<Seq<char>>, keep: spec_fn(Seq<char>) -> bool, k: int)
    requires
        0 <= k < names.filter(keep).len(),
    ensures
        report::place(names, names.filter(keep)[k]) < names.len(),
{
    let name = names.filter(keep)[k];
    names.lemma_filter_contains_rev(keep, name);
    let j = choose|j: int| 0 <= j < names.len() && names[j] == name;
    report::lemma_place(names, name);
    assert(report::place(names, name) <= j);
}

/// Everything measured is printed: by a grid that shows it or among what is
/// left, and never by both.
pub proof fn law_a_table_leaves_nothing_out<S, M>(
    r: ReportView<S, M>,
    lanes: Seq<LaneView>,
    name: Seq<char>,
)
    requires
        r.names.contains(name),
    ensures
        rest(r, lanes).contains(name) <==> !gridded_entries(r, lanes).contains(name),
{
    let keep = |name: Seq<char>| !gridded_entries(r, lanes).contains(name);
    if keep(name) {
        let j = choose|j: int| 0 <= j < r.names.len() && r.names[j] == name;
        r.names.lemma_filter_contains(keep, j);
    }
    if rest(r, lanes).contains(name) {
        let k = choose|k: int| 0 <= k < rest(r, lanes).len() && rest(r, lanes)[k] == name;
        r.names.lemma_filter_pred(keep, k);
    }
}

} // verus!
