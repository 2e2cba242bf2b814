//! What holds of every table.

use crate::grid;
use crate::grid::{CellTextView, GridView, PlacedView};
use crate::lane;
use crate::lane::LaneView;
use crate::layout;
use crate::lists;
use crate::reorder;
use crate::report;
use crate::report::{Found, ReportView};
use crate::text;
use crate::text_laws;
use crate::timings::Timings;
use vstd::prelude::*;

verus! {

/// Whether `p` is where a report first has an entry called `name`.
pub open spec fn first_called<S, M>(r: ReportView<S, M>, name: Seq<char>, p: int) -> bool {
    &&& 0 <= p < r.names.len()
    &&& r.names[p] == name
    &&& forall|q: int| 0 <= q < p ==> #[trigger] r.names[q] != name
}

/// Whether no two inputs of a lane are called alike.
pub open spec fn inputs_differ(lane: LaneView) -> bool {
    forall|j: int, k: int|
        #![trigger lane.inputs[j], lane.inputs[k]]
        0 <= j < k < lane.inputs.len() ==> lane.inputs[j].name != lane.inputs[k].name
}

/// Whether no two of `names` are alike.
pub open spec fn all_different(names: Seq<Seq<char>>) -> bool {
    forall|j: int, k: int|
        #![trigger names[j], names[k]]
        0 <= j < k < names.len() ==> names[j] != names[k]
}

/// Where a report has the entry of a name.
proof fn lemma_first_called<S, M>(r: ReportView<S, M>, name: Seq<char>, p: int)
    requires
        first_called(r, name, p),
    ensures
        report::place(r.names, name) == p,
{
    report::lemma_place(r.names, name);
    let q = report::place(r.names, name);
    if q < p {
        assert(r.names[q] != name);
    }
}

/// The one cell with its row and column is the one that stands there.
proof fn lemma_cell_at(placed: Seq<PlacedView>, x: PlacedView)
    requires
        placed.contains(x),
        forall|j: int|
            0 <= j < placed.len() && (#[trigger] placed[j]).row == x.row && placed[j].column
                == x.column ==> placed[j] == x,
    ensures
        grid::cell_at(placed, x.row, x.column) == Some(x),
    decreases placed.len(),
{
    let j = choose|j: int| 0 <= j < placed.len() && placed[j] == x;
    let n = placed.len() - 1;
    if placed[n].row == x.row && placed[n].column == x.column {
        assert(placed[n] == x);
    } else {
        let rest = placed.drop_last();
        assert(rest[j] == x);
        assert forall|i: int|
            0 <= i < rest.len() && (#[trigger] rest[i]).row == x.row && rest[i].column
                == x.column implies rest[i] == x by {
            assert(rest[i] == placed[i]);
        }
        lemma_cell_at(rest, x);
    }
}

/// Where no cell has a row and column, none stands there.
proof fn lemma_no_cell_at(placed: Seq<PlacedView>, row: Seq<char>, column: Seq<char>)
    requires
        forall|j: int|
            0 <= j < placed.len() ==> (#[trigger] placed[j]).row != row || placed[j].column
                != column,
    ensures
        grid::cell_at(placed, row, column) is None,
    decreases placed.len(),
{
    if placed.len() > 0 {
        let n = placed.len() - 1;
        assert(placed[n].row != row || placed[n].column != column);
        let rest = placed.drop_last();
        assert forall|j: int| 0 <= j < rest.len() implies (#[trigger] rest[j]).row != row
            || rest[j].column != column by {
            assert(rest[j] == placed[j]);
        }
        lemma_no_cell_at(rest, row, column);
    }
}

/// The cells of a grid are those of its inputs' columns, and each is in the
/// column of its input.
proof fn lemma_placed<S, M>(
    r: ReportView<S, M>,
    cells: Seq<Seq<CellTextView>>,
    lane: LaneView,
    x: PlacedView,
)
    ensures
        GridView::of_lane(r, cells, lane).placed.contains(x) <==> exists|k: int|
            0 <= k < lane.inputs.len() && #[trigger] grid::column_of(r, cells, lane, k).contains(x),
        forall|k: int|
            0 <= k < lane.inputs.len() && #[trigger] grid::column_of(r, cells, lane, k).contains(x)
                ==> x.column == lane.inputs[k].name,
{
    let at = lane::positions(lane.inputs.len());
    let f = |k: int| grid::column_of(r, cells, lane, k);
    let placed = GridView::of_lane(r, cells, lane).placed;
    assert(placed == lists::gathered(at, f));
    reorder::lemma_gathered_contains(at, f);
    if placed.contains(x) {
        let i = choose|i: int| 0 <= i < at.len() && #[trigger] f(at[i]).contains(x);
        assert(grid::column_of(r, cells, lane, at[i]).contains(x));
    }
    if exists|k: int|
        0 <= k < lane.inputs.len() && #[trigger] grid::column_of(r, cells, lane, k).contains(x) {
        let k = choose|k: int|
            0 <= k < lane.inputs.len() && #[trigger] grid::column_of(r, cells, lane, k).contains(x);
        assert(at[k] == k);
        assert(f(at[k]).contains(x));
    }
}

/// In a table of a lane with alternatives, the cell in the row of an
/// alternative and the column of an input shows what was given for that
/// alternative of that input's entry: its own time, and under it, for every
/// alternative beyond the baseline, its own percentage, in brackets exactly
/// where it is not shown to have changed.
pub proof fn law_a_cell_shows_its_own_alternative<S, M>(
    r: ReportView<S, M>,
    cells: Seq<Seq<CellTextView>>,
    lane: LaneView,
    k: int,
    p: int,
    t: Timings<M>,
    i: int,
)
    requires
        grid::covers(cells, r),
        lane.candidates.len() >= 2,
        0 <= k < lane.inputs.len(),
        inputs_differ(lane),
        first_called(r, lane.cell_name(lane.inputs[k].name), p),
        r.found[p] == Found::<S, M>::Timing(t),
        t@.timings.len() >= 2,
        all_different(t@.names),
        0 <= i < t@.timings.len(),
    ensures
        ({
            let g = GridView::of_lane(r, cells, lane);
            let (row, column) = (t@.names[i], lane.inputs[k].name);
            &&& g.time_at(row, column) == cells[p][i].time
            &&& i == 0 ==> g.percent_at(row, column) is None
            &&& i > 0 && t@.timings[i].changed == Some(true) ==> g.percent_at(row, column) == Some(
                cells[p][i].percent,
            )
            &&& i > 0 && t@.timings[i].changed != Some(true) ==> g.percent_at(row, column) == Some(
                seq!['('] + cells[p][i].percent + seq![')'],
            )
        }),
{
    let g = GridView::of_lane(r, cells, lane);
    let name = lane.cell_name(lane.inputs[k].name);
    lemma_first_called(r, name, p);
    assert(grid::covers(cells, r) && r.found[p] is Timing);
    let x = grid::compared_cell(t@, cells[p], lane.inputs[k].name, i);
    let column = grid::column_of(r, cells, lane, k);
    assert(column[i] == x);
    assert(column.contains(x));
    lemma_placed(r, cells, lane, x);
    assert forall|j: int|
        0 <= j < g.placed.len() && (#[trigger] g.placed[j]).row == x.row && g.placed[j].column
            == x.column implies g.placed[j] == x by {
        let y = g.placed[j];
        assert(g.placed.contains(y));
        lemma_placed(r, cells, lane, y);
        let l = choose|l: int|
            0 <= l < lane.inputs.len() && #[trigger] grid::column_of(r, cells, lane, l).contains(y);
        assert(lane.inputs[l].name == lane.inputs[k].name);
        assert(l == k);
        let m = choose|m: int| 0 <= m < column.len() && column[m] == y;
        assert(t@.names[m] == t@.names[i]);
        assert(m == i);
    }
    lemma_cell_at(g.placed, x);
    reveal_strlit("(");
    reveal_strlit(")");
    assert("("@ =~= seq!['(']);
    assert(")"@ =~= seq![')']);
}

/// A cell depends on nothing but what was given for its own alternative of its
/// own entry: with every other text changed, it shows the same.
pub proof fn law_a_cell_depends_on_its_own_texts<S, M>(
    r: ReportView<S, M>,
    cells: Seq<Seq<CellTextView>>,
    others: Seq<Seq<CellTextView>>,
    lane: LaneView,
    k: int,
    p: int,
    t: Timings<M>,
    i: int,
)
    requires
        grid::covers(cells, r),
        grid::covers(others, r),
        lane.candidates.len() >= 2,
        0 <= k < lane.inputs.len(),
        inputs_differ(lane),
        first_called(r, lane.cell_name(lane.inputs[k].name), p),
        r.found[p] == Found::<S, M>::Timing(t),
        t@.timings.len() >= 2,
        all_different(t@.names),
        0 <= i < t@.timings.len(),
        cells[p][i] == others[p][i],
    ensures
        ({
            let (g, h) = (GridView::of_lane(r, cells, lane), GridView::of_lane(r, others, lane));
            let (row, column) = (t@.names[i], lane.inputs[k].name);
            &&& g.time_at(row, column) == h.time_at(row, column)
            &&& g.percent_at(row, column) == h.percent_at(row, column)
        }),
{
    law_a_cell_shows_its_own_alternative(r, cells, lane, k, p, t, i);
    law_a_cell_shows_its_own_alternative(r, others, lane, k, p, t, i);
}

/// The cell of a lone candidate shows the time given for it, and no
/// percentage, for there is nothing to compare it with.
pub proof fn law_a_lone_cell_shows_its_time<S, M>(
    r: ReportView<S, M>,
    cells: Seq<Seq<CellTextView>>,
    lane: LaneView,
    k: int,
    p: int,
    t: Timings<M>,
)
    requires
        grid::covers(cells, r),
        lane.candidates.len() == 1,
        0 <= k < lane.inputs.len(),
        inputs_differ(lane),
        first_called(r, lane.lone_name(lane.candidates[0].name, lane.inputs[k].name), p),
        r.found[p] == Found::<S, M>::Timing(t),
        t@.timings.len() == 1,
    ensures
        ({
            let g = GridView::of_lane(r, cells, lane);
            let (row, column) = (lane.candidates[0].name, lane.inputs[k].name);
            &&& g.time_at(row, column) == cells[p][0].time
            &&& g.percent_at(row, column) is None
        }),
{
    let g = GridView::of_lane(r, cells, lane);
    lemma_first_called(r, lane.lone_name(lane.candidates[0].name, lane.inputs[k].name), p);
    let column = grid::column_of(r, cells, lane, k);
    assert(column.len() == 1);
    let x = column[0];
    assert(column.contains(x));
    lemma_placed(r, cells, lane, x);
    assert forall|j: int|
        0 <= j < g.placed.len() && (#[trigger] g.placed[j]).row == x.row && g.placed[j].column
            == x.column implies g.placed[j] == x by {
        let y = g.placed[j];
        assert(g.placed.contains(y));
        lemma_placed(r, cells, lane, y);
        let l = choose|l: int|
            0 <= l < lane.inputs.len() && #[trigger] grid::column_of(r, cells, lane, l).contains(y);
        assert(lane.inputs[l].name == lane.inputs[k].name);
        assert(l == k);
    }
    lemma_cell_at(g.placed, x);
}

/// A name that was not measured on an input has a dash there, and no
/// percentage.
pub proof fn law_what_was_not_measured_is_a_dash<S, M>(
    r: ReportView<S, M>,
    cells: Seq<Seq<CellTextView>>,
    lane: LaneView,
    k: int,
    row: Seq<char>,
)
    requires
        0 <= k < lane.inputs.len(),
        inputs_differ(lane),
        lane.candidates.len() >= 2,
        match r.compared(lane.cell_name(lane.inputs[k].name)) {
            Some(t) => t@.well_formed() && !t@.names.contains(row),
            None => true,
        },
    ensures
        ({
            let g = GridView::of_lane(r, cells, lane);
            &&& g.time_at(row, lane.inputs[k].name) == seq!['-']
            &&& g.percent_at(row, lane.inputs[k].name) is None
        }),
{
    let g = GridView::of_lane(r, cells, lane);
    let column = grid::column_of(r, cells, lane, k);
    assert forall|j: int| 0 <= j < g.placed.len() implies (#[trigger] g.placed[j]).row != row
        || g.placed[j].column != lane.inputs[k].name by {
        let y = g.placed[j];
        assert(g.placed.contains(y));
        lemma_placed(r, cells, lane, y);
        let l = choose|l: int|
            0 <= l < lane.inputs.len() && #[trigger] grid::column_of(r, cells, lane, l).contains(y);
        if y.column == lane.inputs[k].name {
            assert(lane.inputs[l].name == lane.inputs[k].name);
            assert(l == k);
            let m = choose|m: int| 0 <= m < column.len() && column[m] == y;
            let t = r.compared(lane.cell_name(lane.inputs[k].name))->0;
            assert(t@.names.contains(t@.names[m]));
        }
    }
    lemma_no_cell_at(g.placed, row, lane.inputs[k].name);
    reveal_strlit("-");
    assert("-"@ =~= seq!['-']);
}

/// The rows of a table are the lane's candidates, the baseline at the top; its
/// columns are the inputs with an entry in the report, in the lane's order.
pub proof fn law_a_table_has_its_lanes_rows_and_columns<S, M>(
    r: ReportView<S, M>,
    cells: Seq<Seq<CellTextView>>,
    lane: LaneView,
) -> (at: Seq<int>)
    ensures
        ({
            let g = GridView::of_lane(r, cells, lane);
            let measured = |k: int|
                if lane.candidates.len() < 2 {
                    r.lone(lane.lone_name(lane.candidates[0].name, lane.inputs[k].name)) is Some
                } else {
                    r.compared(lane.cell_name(lane.inputs[k].name)) is Some
                };
            &&& g.rows.len() == lane.candidates.len()
            &&& forall|c: int|
                0 <= c < lane.candidates.len() ==> #[trigger] g.rows[c] == lane.candidates[c].name
            &&& g.columns.len() == at.len()
            &&& forall|c: int|
                0 <= c < at.len() ==> 0 <= #[trigger] at[c] < lane.inputs.len() && measured(at[c])
                    && g.columns[c] == lane.inputs[at[c]].name
            &&& forall|c: int, d: int|
                #![trigger at[c], at[d]]
                0 <= c < d < at.len() ==> at[c] < at[d]
            &&& forall|k: int|
                0 <= k < lane.inputs.len() && #[trigger] measured(k) ==> at.contains(k)
        }),
{
    let all = lane::positions(lane.inputs.len());
    let f = |k: int|
        if grid::was_measured(r, lane, k) {
            Some(lane.inputs[k].name)
        } else {
            None
        };
    let at = lists::lemma_filter_map_places(all, f);
    assert(forall|k: int| 0 <= k < all.len() ==> #[trigger] all[k] == k);
    assert forall|c: int| 0 <= c < at.len() implies grid::was_measured(
        r,
        lane,
        #[trigger] at[c],
    ) && 0 <= at[c] < lane.inputs.len() by {
        assert(f(all[at[c]]) is Some);
    }
    assert forall|k: int| 0 <= k < lane.inputs.len() && grid::was_measured(r, lane, k) implies at.contains(
        k,
    ) by {
        assert(f(all[k]) is Some);
    }
    at
}

/// A column is two wider than its longest text: no text of it is longer, and
/// its heading, a time or a percentage is as long.
pub proof fn law_a_column_is_as_wide_as_its_longest_text(g: GridView, i: int, c: int)
    requires
        0 <= i < g.columns.len(),
        0 <= c < g.rows.len(),
    ensures
        layout::bytes(g.columns[i]) + 2 <= g.width(i),
        layout::bytes(g.time_at(g.rows[c], g.columns[i])) + 2 <= g.width(i),
        g.percent_at(g.rows[c], g.columns[i]) matches Some(p) ==> layout::bytes(p) + 2 <= g.width(
            i,
        ),
        g.width(i) == layout::bytes(g.columns[i]) + 2 || exists|d: int|
            0 <= d < g.rows.len() && as_wide(g, #[trigger] g.rows[d], i),
{
    let n = g.rows.len() as int;
    grid::lemma_longest(g, g.columns[i], n, c);
    lemma_longest_is_there(g, g.columns[i], n);
    if g.width(i) != layout::bytes(g.columns[i]) + 2 {
        let d = choose|d: int|
            0 <= d < n && holds_longest(g, #[trigger] g.rows[d], g.columns[i], n);
        assert(as_wide(g, g.rows[d], i));
    }
}

/// Whether a row's time or percentage fills column `i` but for two characters.
pub open spec fn as_wide(g: GridView, row: Seq<char>, i: int) -> bool {
    g.width(i) == layout::bytes(g.time_at(row, g.columns[i])) + 2 || (g.percent_at(
        row,
        g.columns[i],
    ) matches Some(p) && g.width(i) == layout::bytes(p) + 2)
}

/// Whether a row has the longest text of a column over its first `n` rows.
spec fn holds_longest(g: GridView, row: Seq<char>, column: Seq<char>, n: int) -> bool {
    g.longest(column, n) == layout::bytes(g.time_at(row, column)) || (g.percent_at(
        row,
        column,
    ) matches Some(p) && g.longest(column, n) == layout::bytes(p))
}

/// The longest text of a column is one of its texts.
proof fn lemma_longest_is_there(g: GridView, column: Seq<char>, n: int)
    requires
        0 <= n <= g.rows.len(),
    ensures
        g.longest(column, n) == layout::bytes(column) || exists|d: int|
            0 <= d < n && holds_longest(g, #[trigger] g.rows[d], column, n),
    decreases n,
{
    if n > 0 {
        lemma_longest_is_there(g, column, n - 1);
        if g.longest(column, n) == g.longest(column, n - 1) {
            if g.longest(column, n) != layout::bytes(column) {
                let d = choose|d: int|
                    0 <= d < n - 1 && holds_longest(g, #[trigger] g.rows[d], column, n - 1);
                assert(holds_longest(g, g.rows[d], column, n));
            }
        } else {
            assert(holds_longest(g, g.rows[n - 1], column, n));
        }
    }
}

/// The columns line up: in the heading, the times and the percentages of every
/// row the first `n` columns take the same room. Each text ends its column, with
/// at least two spaces before it.
pub proof fn law_columns_line_up(g: GridView, c: int, n: int)
    requires
        0 <= c < g.rows.len(),
        0 <= n <= g.columns.len(),
    ensures
        g.values(g.rows[c], n).len() == g.header(n).len(),
        g.percents(g.rows[c], n).len() == g.header(n).len(),
        n > 0 ==> ({
            let (row, column) = (g.rows[c], g.columns[n - 1]);
            let (from, to) = (g.header(n - 1).len() as int, g.header(n).len() as int);
            &&& to == from + g.width(n - 1)
            &&& ends_column(g.header(n), from, column)
            &&& ends_column(g.values(row, n), from, g.time_at(row, column))
            &&& match g.percent_at(row, column) {
                Some(p) => ends_column(g.percents(row, n), from, p),
                None => ends_column(g.percents(row, n), from, Seq::empty()),
            }
        }),
    decreases n,
{
    if n > 0 {
        law_columns_line_up(g, c, n - 1);
        let (row, column) = (g.rows[c], g.columns[n - 1]);
        grid::lemma_longest(g, column, g.rows.len() as int, c);
        let w = g.width(n - 1);
        lemma_right_ends(g.header(n - 1), column, w);
        lemma_right_ends(g.values(row, n - 1), g.time_at(row, column), w);
        match g.percent_at(row, column) {
            Some(p) => {
                lemma_right_ends(g.percents(row, n - 1), p, w);
            },
            None => {
                let from = g.header(n - 1).len() as int;
                assert(g.percents(row, n).skip(g.percents(row, n).len() as int) =~= Seq::<
                    char,
                >::empty());
            },
        }
    }
}

/// Whether a line ends in `s`, with nothing but spaces, two at least, between
/// it and position `from`.
pub open spec fn ends_column(line: Seq<char>, from: int, s: Seq<char>) -> bool {
    &&& 0 <= from
    &&& from + 2 + s.len() <= line.len()
    &&& line.skip(line.len() - s.len()) == s
    &&& forall|i: int| from <= i < line.len() - s.len() ==> #[trigger] line[i] == ' '
}

/// What a text at the right of a column makes of a line.
proof fn lemma_right_ends(before: Seq<char>, s: Seq<char>, width: nat)
    requires
        layout::bytes(s) + 2 <= width,
    ensures
        ends_column(before + layout::right(s, width), before.len() as int, s),
        layout::right(s, width).len() == width,
{
    grid::lemma_chars_at_most_bytes(s);
    let line = before + layout::right(s, width);
    assert(line.skip(line.len() - s.len()) =~= s);
}

/// A row is followed by a line of percentages exactly where one of its cells
/// has one, and the table by the words on brackets exactly where a percentage
/// stands in them.
pub proof fn law_percentages_and_brackets_are_noted(g: GridView, row: Seq<char>, n: int, m: int)
    requires
        0 <= n <= g.columns.len(),
        0 <= m <= g.rows.len(),
    ensures
        g.has_percent(row, n) <==> exists|i: int|
            0 <= i < n && g.percent_at(row, #[trigger] g.columns[i]) is Some,
        g.any_bracket(m) <==> exists|c: int, i: int|
            0 <= c < m && 0 <= i < g.columns.len() && (g.percent_at(
                #[trigger] g.rows[c],
                #[trigger] g.columns[i],
            ) matches Some(p) && p.len() > 0 && p[0] == '('),
    decreases n, m,
{
    if n > 0 {
        law_percentages_and_brackets_are_noted(g, row, n - 1, 0);
        if g.percent_at(row, g.columns[n - 1]) is Some {
            assert(g.has_percent(row, n));
        }
    } else if m > 0 {
        law_percentages_and_brackets_are_noted(g, row, 0, m - 1);
    }
    if m > 0 {
        lemma_any_bracket(g, m);
    }
}

/// Whether a row shows a difference in brackets.
proof fn lemma_has_bracket(g: GridView, row: Seq<char>, n: int)
    requires
        0 <= n <= g.columns.len(),
    ensures
        g.has_bracket(row, n) <==> exists|i: int|
            0 <= i < n && (g.percent_at(row, #[trigger] g.columns[i]) matches Some(p) && p.len() > 0
                && p[0] == '('),
    decreases n,
{
    if n > 0 {
        lemma_has_bracket(g, row, n - 1);
    }
}

/// Whether one of the first rows shows a difference in brackets.
proof fn lemma_any_bracket(g: GridView, m: int)
    requires
        0 <= m <= g.rows.len(),
    ensures
        g.any_bracket(m) <==> exists|c: int, i: int|
            0 <= c < m && 0 <= i < g.columns.len() && (g.percent_at(
                #[trigger] g.rows[c],
                #[trigger] g.columns[i],
            ) matches Some(p) && p.len() > 0 && p[0] == '('),
    decreases m,
{
    if m > 0 {
        lemma_any_bracket(g, m - 1);
        lemma_has_bracket(g, g.rows[m - 1], g.columns.len() as int);
    }
}

/// Every row of a table is printed, one below the other: two spaces, the candidate's name, and from
/// where the longest name ends, its times.
pub proof fn law_every_row_is_printed(g: GridView, c: int, n: int)
    requires
        0 <= c < n <= g.rows.len(),
    ensures
        text::stands_at(g.body(n), g.row_text(g.rows[c]), g.body(c).len() as int),
        g.body(0).len() == 0,
        g.body(c + 1).len() == g.body(c).len() + g.row_text(g.rows[c]).len(),
        ({
            let (row, times) = (g.rows[c], g.values(g.rows[c], g.columns.len() as int));
            let from = if row.len() < layout::widest(g.rows) {
                layout::widest(g.rows) + 2
            } else {
                row.len() + 2
            };
            &&& text::stands_at(g.row_text(row), seq![' ', ' '] + row, 0)
            &&& text::stands_at(g.row_text(row), times + seq!['\n'], from as int)
            &&& forall|i: int| row.len() + 2 <= i < from ==> #[trigger] g.row_text(row)[i] == ' '
        }),
    decreases n,
{
    let row = g.rows[c];
    let line = g.row_text(row);
    let at = g.body(c).len() as int;
    if c == n - 1 {
        assert(g.body(n).subrange(at, at + line.len()) =~= line);
    } else {
        law_every_row_is_printed(g, c, n - 1);
        assert(g.body(n).subrange(at, at + line.len()) =~= g.body(n - 1).subrange(
            at,
            at + line.len(),
        ));
    }
    reveal_strlit("  ");
    reveal_strlit("\n");
    let times = g.values(row, g.columns.len() as int);
    let w = layout::widest(g.rows);
    let from = if row.len() < w {
        w + 2
    } else {
        row.len() + 2
    };
    assert(line.subrange(0, row.len() as int + 2) =~= seq![' ', ' '] + row);
    assert(line.subrange(from as int, from as int + times.len() + 1) =~= times + seq!['\n']);
}

/// A table opens with the group, the type and the baseline, which is the
/// candidate of its first row.
pub proof fn law_a_table_names_its_baseline(g: GridView, group: Seq<char>, ty: Seq<char>)
    requires
        g.rows.len() > 0,
    ensures
        text::stands_at(
            g.shown(group, ty),
            group + seq![' ', ' ', '('] + ty + ")  baseline: "@ + g.rows[0] + seq!['\n'],
            0,
        ),
{
    reveal_strlit("  (");
    reveal_strlit("\n");
    assert("  ("@ =~= seq![' ', ' ', '(']);
    assert("\n"@ =~= seq!['\n']);
    let head = group + seq![' ', ' ', '('] + ty + ")  baseline: "@ + g.rows[0] + seq!['\n'];
    assert(g.shown(group, ty).subrange(0, head.len() as int) =~= head);
}

/// What no grid shows is printed by its name and what was shown of it, and
/// of a lane with a single input, or none measured, there is no grid.
pub proof fn law_what_is_left_is_printed_as_it_was_shown<S, M>(
    r: ReportView<S, M>,
    cells: Seq<Seq<CellTextView>>,
    lane: LaneView,
    shown: Seq<Seq<char>>,
    width: nat,
    p: int,
)
    requires
        first_called(r, r.names[p], p),
        shown.len() == r.names.len(),
    ensures
        grid::rest_line(r.names, shown, width, r.names[p]) == report::entry_text(
            r.names[p],
            shown[p],
            width,
        ) + seq!['\n'],
        lane.inputs.len() < 2 ==> grid::lane_text(r, cells, lane).len() == 0 && grid::lane_entries(
            r,
            lane,
        ).len() == 0,
        lane.inputs.len() >= 2 && GridView::of_lane(r, cells, lane).columns.len() > 0
            ==> grid::lane_text(r, cells, lane) == GridView::of_lane(r, cells, lane).shown(
            lane.group,
            lane.ty_name,
        ) + seq!['\n'],
{
    lemma_first_called(r, r.names[p], p);
    reveal_strlit("\n");
    assert("\n"@ =~= seq!['\n']);
}

/// An entry is shown by a grid exactly where it is what a lane of several
/// inputs calls one of those that were measured.
pub proof fn law_which_entries_a_grid_shows<S, M>(
    r: ReportView<S, M>,
    lanes: Seq<LaneView>,
    name: Seq<char>,
)
    requires
        forall|l: int| 0 <= l < lanes.len() ==> (#[trigger] lanes[l]).candidates.len() >= 2,
    ensures
        grid::gridded_entries(r, lanes).contains(name) <==> r.compared(name) is Some && exists|
            l: int,
            k: int,
        |
            #![trigger lanes[l].inputs[k]]
            0 <= l < lanes.len() && lanes[l].inputs.len() >= 2 && 0 <= k < lanes[l].inputs.len()
                && name == lanes[l].cell_name(lanes[l].inputs[k].name),
{
    let f = |l: LaneView| grid::lane_entries(r, l);
    let all = grid::gridded_entries(r, lanes);
    assert(all == lists::gathered(lanes, f));
    reorder::lemma_gathered_contains(lanes, f);
    if all.contains(name) {
        let l = choose|l: int| 0 <= l < lanes.len() && #[trigger] f(lanes[l]).contains(name);
        lemma_measured_entries(r, lanes[l], name);
        let k = choose|k: int|
            0 <= k < lanes[l].inputs.len() && grid::was_measured(r, lanes[l], k)
                && #[trigger] grid::entry_name(lanes[l], k) == name;
        assert(lanes[l].inputs[k] == lanes[l].inputs[k]);
    }
    assert forall|l: int, k: int|
        #![trigger lanes[l].inputs[k]]
        0 <= l < lanes.len() && lanes[l].inputs.len() >= 2 && 0 <= k < lanes[l].inputs.len() && name
            == lanes[l].cell_name(lanes[l].inputs[k].name) && r.compared(
            name,
        ) is Some implies all.contains(name) by {
        lemma_measured_entries(r, lanes[l], name);
        assert(grid::entry_name(lanes[l], k) == name);
        assert(f(lanes[l]).contains(name));
    }
}

/// What a lane's grid shows.
proof fn lemma_measured_entries<S, M>(r: ReportView<S, M>, lane: LaneView, name: Seq<char>)
    ensures
        grid::measured_entries(r, lane).contains(name) <==> exists|k: int|
            0 <= k < lane.inputs.len() && grid::was_measured(r, lane, k)
                && #[trigger] grid::entry_name(lane, k) == name,
{
    let all = lane::positions(lane.inputs.len());
    let f = |k: int|
        if grid::was_measured(r, lane, k) {
            Some(grid::entry_name(lane, k))
        } else {
            None
        };
    reorder::lemma_filter_map_contains(all, f);
    assert(grid::measured_entries(r, lane) == all.filter_map(f));
    if all.filter_map(f).contains(name) {
        let i = choose|i: int| 0 <= i < all.len() && #[trigger] f(all[i]) == Some(name);
        assert(grid::entry_name(lane, all[i]) == name);
    }
    if exists|k: int|
        0 <= k < lane.inputs.len() && grid::was_measured(r, lane, k) && #[trigger] grid::entry_name(
            lane,
            k,
        ) == name {
        let k = choose|k: int|
            0 <= k < lane.inputs.len() && grid::was_measured(r, lane, k)
                && #[trigger] grid::entry_name(lane, k) == name;
        assert(all[k] == k);
        assert(f(all[k]) == Some(name));
    }
}

/// A table has the grid of each lane that has one, and a line for each entry
/// that no grid shows, all of them padded alike. Without lanes it is the report.
pub proof fn law_a_table_has_every_grid_and_every_other_entry<S, M>(
    r: ReportView<S, M>,
    shown: Seq<Seq<char>>,
    cells: Seq<Seq<CellTextView>>,
    lanes: Seq<LaneView>,
    l: int,
    name: Seq<char>,
)
    requires
        r.well_formed(),
        shown.len() == r.names.len(),
    ensures
        lanes.len() == 0 ==> grid::table_text(r, shown, cells, lanes) == report::report_text(
            r.names,
            shown,
        ) + seq!['\n'],
        0 <= l < lanes.len() && lanes[l].inputs.len() >= 2 && GridView::of_lane(
            r,
            cells,
            lanes[l],
        ).columns.len() > 0 ==> text::has_part(
            grid::table_text(r, shown, cells, lanes),
            GridView::of_lane(r, cells, lanes[l]).shown(lanes[l].group, lanes[l].ty_name) + seq![
                '\n',
            ],
        ),
        lanes.len() > 0 && r.names.contains(name) && !grid::gridded_entries(r, lanes).contains(name)
            ==> text::has_part(
            grid::table_text(r, shown, cells, lanes),
            report::entry_text(
                name,
                shown[report::place(r.names, name)],
                layout::widest(grid::rest(r, lanes)),
            ) + seq!['\n'],
        ),
{
    reveal_strlit("\n");
    assert("\n"@ =~= seq!['\n']);
    let table = grid::table_text(r, shown, cells, lanes);
    let f = |l: LaneView| grid::lane_text(r, cells, l);
    let rest = grid::rest(r, lanes);
    let width = layout::widest(rest);
    let g = |name: Seq<char>| grid::rest_line(r.names, shown, width, name);
    let grids = lists::gathered(lanes, f);
    let lines = lists::gathered(rest, g);
    let none = Seq::<char>::empty();
    if lanes.len() > 0 {
        assert(table == grids + lines);
        if 0 <= l < lanes.len() {
            lemma_gathered_has(lanes, f, l);
            lemma_part_of_more(none, grids, lines, f(lanes[l]));
            assert(none + grids + lines =~= table);
        }
        if r.names.contains(name) && !grid::gridded_entries(r, lanes).contains(name) {
            grid::law_a_table_leaves_nothing_out(r, lanes, name);
            let k = choose|k: int| 0 <= k < rest.len() && rest[k] == name;
            lemma_gathered_has(rest, g, k);
            lemma_part_of_more(grids, lines, none, g(name));
            assert(grids + lines + none =~= table);
        }
    }
}

/// What is part of a text is part of more.
proof fn lemma_part_of_more(before: Seq<char>, s: Seq<char>, after: Seq<char>, part: Seq<char>)
    requires
        text::has_part(s, part),
    ensures
        text::has_part(before + s + after, part),
{
    text_laws::law_a_part_stands_between(s, part);
    let (x, y) = choose|x: Seq<char>, y: Seq<char>| s == #[trigger] (x + part + y);
    let (front, back) = (before + x, y + after);
    assert(before + s + after =~= front + part + back);
    text_laws::law_a_part_stands_between(before + s + after, part);
}

/// What was gathered has each of its parts.
proof fn lemma_gathered_has<A>(s: Seq<A>, f: spec_fn(A) -> Seq<char>, i: int)
    requires
        0 <= i < s.len(),
    ensures
        text::has_part(lists::gathered(s, f), f(s[i])),
    decreases s.len(),
{
    let none = Seq::<char>::empty();
    let rest = s.drop_last();
    let before = lists::gathered(rest, f);
    let last = f(s.last());
    let all = lists::gathered(s, f);
    if i == rest.len() {
        assert(all =~= before + last + none);
        text_laws::law_a_part_stands_between(all, last);
    } else {
        lemma_gathered_has(rest, f, i);
        lemma_part_of_more(none, before, last, f(s[i]));
        assert(none + before + last =~= all);
    }
}

/// The width of a list of texts is that of one of them, and none is wider.
pub proof fn law_the_widest_is_one_of_them(all: Seq<Seq<char>>, i: int)
    requires
        0 <= i < all.len(),
    ensures
        layout::bytes(all[i]) <= layout::widest(all),
        exists|j: int|
            0 <= j < all.len() && layout::bytes(#[trigger] all[j]) == layout::widest(all),
    decreases all.len(),
{
    layout::lemma_widest(all, i);
    let rest = all.drop_last();
    let n = all.len() - 1;
    if n > 0 && layout::widest(all) != layout::bytes(all[n]) {
        law_the_widest_is_one_of_them(rest, 0);
        let j = choose|j: int|
            0 <= j < rest.len() && layout::bytes(#[trigger] rest[j]) == layout::widest(rest);
        assert(all[j] == rest[j]);
    }
}

/// A row is its times on one line and, where any of its cells has one, its
/// percentages on the next, under the columns they belong to.
pub proof fn law_percentages_stand_below_the_times(g: GridView, row: Seq<char>)
    ensures
        ({
            let n = g.columns.len() as int;
            let width = layout::widest(g.rows);
            let times = seq![' ', ' '] + row + layout::spaces(layout::room(row, width)) + g.values(
                row,
                n,
            ) + seq!['\n'];
            let any = exists|i: int|
                0 <= i < n && g.percent_at(row, #[trigger] g.columns[i]) is Some;
            &&& any ==> g.row_text(row) == times + layout::spaces(width + 2) + text::trimmed_end(
                g.percents(row, n),
            ) + seq!['\n']
            &&& !any ==> g.row_text(row) == times
        }),
{
    let n = g.columns.len() as int;
    law_percentages_and_brackets_are_noted(g, row, n, 0);
    reveal_strlit("  ");
    reveal_strlit("\n");
    assert("  "@ =~= seq![' ', ' ']);
    assert("\n"@ =~= seq!['\n']);
    let width = layout::widest(g.rows);
    let times = seq![' ', ' '] + row + layout::spaces(layout::room(row, width)) + g.values(row, n)
        + seq!['\n'];
    if g.has_percent(row, n) {
        assert(g.row_text(row) =~= times + layout::spaces(width + 2) + text::trimmed_end(
            g.percents(row, n),
        ) + seq!['\n']);
    } else {
        assert(g.row_text(row) =~= times);
    }
}

/// Below its first line a table has the names of its columns, above the times
/// they belong to, then its rows, and at the end, where a percentage stands in
/// brackets, what brackets mean.
pub proof fn law_how_a_table_goes_on(g: GridView, group: Seq<char>, ty: Seq<char>)
    requires
        g.rows.len() > 0,
    ensures
        ({
            let first = group + seq![' ', ' ', '('] + ty + ")  baseline: "@ + g.rows[0] + seq![
                '\n',
            ];
            let heading = layout::spaces(layout::widest(g.rows) + 2) + g.header(
                g.columns.len() as int,
            ) + seq!['\n'];
            let all = first + heading + g.body(g.rows.len() as int);
            let any = exists|c: int, i: int|
                0 <= c < g.rows.len() && 0 <= i < g.columns.len() && (g.percent_at(
                    #[trigger] g.rows[c],
                    #[trigger] g.columns[i],
                ) matches Some(p) && p.len() > 0 && p[0] == '(');
            &&& any ==> g.shown(group, ty) == all
                + "  (percentages in brackets did not clear this run's threshold)\n"@
            &&& !any ==> g.shown(group, ty) == all
        }),
{
    law_percentages_and_brackets_are_noted(g, g.rows[0], 0, g.rows.len() as int);
    reveal_strlit("  (");
    reveal_strlit("\n");
    assert("  ("@ =~= seq![' ', ' ', '(']);
    assert("\n"@ =~= seq!['\n']);
    let first = group + seq![' ', ' ', '('] + ty + ")  baseline: "@ + g.rows[0] + seq!['\n'];
    let heading = layout::spaces(layout::widest(g.rows) + 2) + g.header(g.columns.len() as int)
        + seq!['\n'];
    let all = first + heading + g.body(g.rows.len() as int);
    if g.any_bracket(g.rows.len() as int) {
        assert(g.shown(group, ty) =~= all
            + "  (percentages in brackets did not clear this run's threshold)\n"@);
    } else {
        assert(g.shown(group, ty) =~= all);
    }
}

/// A cell that is put in a row and column stands there, whatever was there
/// before, and nowhere else.
pub proof fn law_a_cell_goes_where_it_is_put(
    placed: Seq<PlacedView>,
    x: PlacedView,
    row: Seq<char>,
    column: Seq<char>,
)
    ensures
        grid::cell_at(placed.push(x), x.row, x.column) == Some(x),
        row != x.row || column != x.column ==> grid::cell_at(placed.push(x), row, column)
            == grid::cell_at(placed, row, column),
        grid::cell_at(Seq::empty(), row, column) is None,
{
    assert(placed.push(x).drop_last() =~= placed);
}

} // verus!
