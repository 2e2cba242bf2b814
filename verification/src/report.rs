//! Everything a suite measured.

use crate::lane;
use crate::layout;
use crate::lists;
use crate::text;
use crate::timings;
use crate::timings::{Timing, Timings};
use vstd::prelude::*;

verus! {

/// One measurement of a suite: a scaling law, or the timings of a group.
#[derive(Debug, Clone)]
pub enum Found<S, M> {
    /// What a scaling benchmark came to.
    Scaling(S),
    /// What a group of alternatives came to, which is one alternative for a
    /// benchmark that stands alone.
    Timing(Timings<M>),
}

impl<S, M> Found<S, M> {
    /// The one timing of a benchmark that stands alone.
    pub open spec fn lone(self) -> Option<Timing<M>> {
        match self {
            Found::Timing(t) if t@.timings.len() == 1 => Some(t@.timings[0]),
            _ => None,
        }
    }

    /// The timings of a comparison, which has alternatives beyond the
    /// baseline.
    pub open spec fn compared(self) -> Option<Timings<M>> {
        match self {
            Found::Timing(t) if t@.timings.len() > 1 => Some(t),
            _ => None,
        }
    }

    /// The scaling law.
    pub open spec fn law(self) -> Option<S> {
        match self {
            Found::Scaling(s) => Some(s),
            _ => None,
        }
    }

    fn as_lone(&self) -> (out: Option<&Timing<M>>)
        ensures
            seen(out) == self.lone(),
    {
        match self {
            Found::Timing(t) => if t.len() == 1 {
                Some(t.timing(0))
            } else {
                None
            },
            Found::Scaling(_) => None,
        }
    }

    fn as_compared(&self) -> (out: Option<&Timings<M>>)
        ensures
            seen(out) == self.compared(),
    {
        match self {
            Found::Timing(t) => if t.len() > 1 {
                Some(t)
            } else {
                None
            },
            Found::Scaling(_) => None,
        }
    }
}

/// Everything a suite measured, in the order it was declared.
#[derive(Debug, Clone)]
pub struct Report<S, M> {
    names: Vec<String>,
    found: Vec<Found<S, M>>,
}

/// The values of a [`Report`].
#[verifier::ext_equal]
pub struct ReportView<S, M> {
    pub names: Seq<Seq<char>>,
    pub found: Seq<Found<S, M>>,
}

impl<S, M> View for Report<S, M> {
    type V = ReportView<S, M>;

    closed spec fn view(&self) -> ReportView<S, M> {
        ReportView { names: text::strings(self.names@), found: self.found@ }
    }
}

/// What an optional reference refers to.
pub open spec fn seen<T>(r: Option<&T>) -> Option<T> {
    match r {
        Some(t) => Some(*t),
        None => None,
    }
}

/// The position of the first entry called `name`, or how many there are.
pub open spec fn place(names: Seq<Seq<char>>, name: Seq<char>) -> int
    decreases names.len(),
{
    if names.len() == 0 || names[0] == name {
        0
    } else {
        1 + place(names.drop_first(), name)
    }
}

/// What [`place`] promises.
pub proof fn lemma_place(names: Seq<Seq<char>>, name: Seq<char>)
    ensures
        0 <= place(names, name) <= names.len(),
        place(names, name) < names.len() ==> names[place(names, name)] == name,
        forall|k: int| 0 <= k < place(names, name) ==> #[trigger] names[k] != name,
    decreases names.len(),
{
    if names.len() > 0 && names[0] != name {
        let rest = names.drop_first();
        lemma_place(rest, name);
        assert forall|k: int| 0 <= k < place(names, name) implies #[trigger] names[k] != name by {
            if k > 0 {
                assert(rest[k - 1] == names[k]);
            }
        }
    }
}

/// A position that is the first of its name is its place.
proof fn lemma_place_is(names: Seq<Seq<char>>, name: Seq<char>, at: int)
    requires
        0 <= at <= names.len(),
        at < names.len() ==> names[at] == name,
        forall|k: int| 0 <= k < at ==> #[trigger] names[k] != name,
    ensures
        place(names, name) == at,
{
    lemma_place(names, name);
    let p = place(names, name);
    if p < at {
        assert(names[p] != name);
    }
    if at < p {
        assert(names[at] != name);
    }
}

/// One entry of a report as it is printed: on the line of its name, or in a
/// block of its own where it takes several lines.
pub open spec fn entry_text(name: Seq<char>, shown: Seq<char>, width: nat) -> Seq<char> {
    let s = text::trimmed_end(shown);
    if s.contains('\n') {
        name + ":\n"@ + s
    } else {
        layout::left(name, width) + "  "@ + s
    }
}

/// Every entry as it is printed.
pub open spec fn entry_texts(names: Seq<Seq<char>>, shown: Seq<Seq<char>>) -> Seq<Seq<char>> {
    Seq::new(names.len(), |i: int| entry_text(names[i], shown[i], layout::widest(names)))
}

/// The whole report as it is printed.
pub open spec fn report_text(names: Seq<Seq<char>>, shown: Seq<Seq<char>>) -> Seq<char> {
    text::joined(entry_texts(names, shown), "\n"@)
}

/// Append one entry as it is printed.
pub fn append_entry(out: &mut String, name: &str, shown: &str, width: usize)
    ensures
        final(out)@ == old(out)@ + entry_text(name@, shown@, width as nat),
{
    let s = text::trim_end(shown);
    proof {
        reveal_strlit("\n");
    }
    let chars = text::chars_of(s);
    let at: usize = text::find_from(&chars, '\n', 0);
    proof {
        assert(s@.skip(0) =~= s@);
        text::lemma_first_index(s@, '\n');
    }
    if at < chars.len() {
        assert(s@.contains('\n'));
        out.append(name);
        out.append(":\n");
    } else {
        layout::append_left(out, name, width);
        out.append("  ");
    }
    out.append(s);
    assert(out@ =~= old(out)@ + entry_text(name@, shown@, width as nat));
}

impl<S, M> ReportView<S, M> {
    /// Whether every name has a measurement.
    pub open spec fn well_formed(self) -> bool {
        self.names.len() == self.found.len()
    }

    /// What was measured under a name.
    pub open spec fn lookup(self, name: Seq<char>) -> Option<Found<S, M>> {
        let p = place(self.names, name);
        if p < self.found.len() {
            Some(self.found[p])
        } else {
            None
        }
    }

    /// The benchmark that stands alone under a name.
    pub open spec fn lone(self, name: Seq<char>) -> Option<Timing<M>> {
        match self.lookup(name) {
            Some(f) => f.lone(),
            None => None,
        }
    }

    /// The comparison under a name.
    pub open spec fn compared(self, name: Seq<char>) -> Option<Timings<M>> {
        match self.lookup(name) {
            Some(f) => f.compared(),
            None => None,
        }
    }

    /// Every benchmark that stands alone, in order.
    pub open spec fn all_lone(self) -> Seq<(Seq<char>, Timing<M>)> {
        lane::positions(self.found.len()).filter_map(
            |p: int|
                match self.found[p].lone() {
                    Some(t) => Some((self.names[p], t)),
                    None => None,
                },
        )
    }

    /// Every comparison, in order.
    pub open spec fn all_compared(self) -> Seq<(Seq<char>, Timings<M>)> {
        lane::positions(self.found.len()).filter_map(
            |p: int|
                match self.found[p].compared() {
                    Some(t) => Some((self.names[p], t)),
                    None => None,
                },
        )
    }
}

impl<S, M> Report<S, M> {
    /// Gather what was measured, in the order it was declared.
    pub fn new(names: Vec<String>, found: Vec<Found<S, M>>) -> (r: Report<S, M>)
        requires
            names@.len() == found@.len(),
        ensures
            r@ == (ReportView { names: text::strings(names@), found: found@ }),
            r@.well_formed(),
    {
        Report { names, found }
    }

    /// What every entry is called, in the order they were declared.
    pub fn names(&self) -> (names: Vec<&str>)
        ensures
            text::texts(names@) == self@.names,
    {
        text::borrowed(&self.names)
    }

    /// How many entries there are.
    pub fn len(&self) -> (n: usize)
        ensures
            n == self@.found.len(),
    {
        self.found.len()
    }

    /// What the entry at one position found.
    ///
    /// Two entries may be called alike; each has a position of its own.
    pub fn found(&self, i: usize) -> (out: &Found<S, M>)
        requires
            i < self@.found.len(),
        ensures
            *out == self@.found[i as int],
    {
        &self.found[i]
    }

    /// The position of the first entry called `name`.
    pub fn position(&self, name: &str) -> (at: usize)
        ensures
            at == place(self@.names, name@),
    {
        let mut i: usize = 0;
        while i < self.names.len()
            invariant
                i <= self.names.len(),
                self@.names == text::strings(self.names@),
                forall|k: int| 0 <= k < i ==> #[trigger] self@.names[k] != name@,
            decreases self.names.len() - i,
        {
            if text::same_text(self.names[i].as_str(), name) {
                proof {
                    lemma_place_is(self@.names, name@, i as int);
                }
                return i;
            }
            i += 1;
        }
        proof {
            lemma_place_is(self@.names, name@, i as int);
        }
        i
    }

    /// Whether anything was measured under this name.
    pub fn contains(&self, name: &str) -> (held: bool)
        ensures
            held == self@.names.contains(name@),
    {
        let at: usize = self.position(name);
        proof {
            lemma_place(self@.names, name@);
            if self@.names.contains(name@) {
                let k = choose|k: int| 0 <= k < self@.names.len() && self@.names[k] == name@;
                assert(k >= at);
            }
        }
        at < self.names.len()
    }

    /// One measurement, whichever kind it is.
    pub fn find(&self, name: &str) -> (out: Option<&Found<S, M>>)
        requires
            self@.well_formed(),
        ensures
            seen(out) == self@.lookup(name@),
    {
        let at: usize = self.position(name);
        if at < self.found.len() {
            Some(&self.found[at])
        } else {
            None
        }
    }

    /// The measurement of a benchmark that stands alone, by name.
    ///
    /// `None` if that name is something else, so a caller that does not know
    /// what it is looking at can simply ask.
    pub fn stats(&self, name: &str) -> (out: Option<&Timing<M>>)
        requires
            self@.well_formed(),
        ensures
            seen(out) == self@.lone(name@),
    {
        match self.find(name) {
            Some(f) => f.as_lone(),
            None => None,
        }
    }

    /// The result of a scaling benchmark, by name.
    pub fn scaling(&self, name: &str) -> (out: Option<&S>)
        requires
            self@.well_formed(),
        ensures
            seen(out) == match self@.lookup(name@) {
                Some(f) => f.law(),
                None => None,
            },
    {
        match self.find(name) {
            Some(Found::Scaling(s)) => Some(s),
            _ => None,
        }
    }

    /// The results of a comparison, by name.
    pub fn comparison(&self, name: &str) -> (out: Option<&Timings<M>>)
        requires
            self@.well_formed(),
        ensures
            seen(out) == self@.compared(name@),
    {
        match self.find(name) {
            Some(f) => f.as_compared(),
            None => None,
        }
    }

    /// Every benchmark that stands alone, with its name, in order.
    pub fn all_stats(&self) -> (out: Vec<(&str, &Timing<M>)>)
        requires
            self@.well_formed(),
        ensures
            timings::pairs(out@) == self@.all_lone(),
    {
        let mut out: Vec<(&str, &Timing<M>)> = Vec::new();
        let ghost all = lane::positions(self@.found.len());
        let ghost f = |p: int|
            match self@.found[p].lone() {
                Some(t) => Some((self@.names[p], t)),
                None => None,
            };
        let mut i: usize = 0;
        assert(all.take(0).filter_map(f) =~= Seq::empty());
        assert(timings::pairs(out@) =~= Seq::empty());
        while i < self.found.len()
            invariant
                self@.well_formed(),
                i <= self.found.len(),
                self@.names == text::strings(self.names@),
                self@.found == self.found@,
                all == lane::positions(self@.found.len()),
                f == (|p: int|
                    match self@.found[p].lone() {
                        Some(t) => Some((self@.names[p], t)),
                        None => None,
                    }),
                timings::pairs(out@) == all.take(i as int).filter_map(f),
            decreases self.found.len() - i,
        {
            proof {
                lists::lemma_filter_map_step(all, f, i as int);
            }
            let ghost had = timings::pairs(out@);
            match self.found[i].as_lone() {
                Some(t) => {
                    out.push((self.names[i].as_str(), t));
                    assert(timings::pairs(out@) =~= had.push((self@.names[i as int], *t)));
                },
                None => {},
            }
            i += 1;
        }
        assert(all.take(i as int) =~= all);
        out
    }

    /// Every comparison, with its name, in order.
    pub fn all_comparisons(&self) -> (out: Vec<(&str, &Timings<M>)>)
        requires
            self@.well_formed(),
        ensures
            timings::pairs(out@) == self@.all_compared(),
    {
        let mut out: Vec<(&str, &Timings<M>)> = Vec::new();
        let ghost all = lane::positions(self@.found.len());
        let ghost f = |p: int|
            match self@.found[p].compared() {
                Some(t) => Some((self@.names[p], t)),
                None => None,
            };
        let mut i: usize = 0;
        assert(all.take(0).filter_map(f) =~= Seq::empty());
        assert(timings::pairs(out@) =~= Seq::empty());
        while i < self.found.len()
            invariant
                self@.well_formed(),
                i <= self.found.len(),
                self@.names == text::strings(self.names@),
                self@.found == self.found@,
                all == lane::positions(self@.found.len()),
                f == (|p: int|
                    match self@.found[p].compared() {
                        Some(t) => Some((self@.names[p], t)),
                        None => None,
                    }),
                timings::pairs(out@) == all.take(i as int).filter_map(f),
            decreases self.found.len() - i,
        {
            proof {
                lists::lemma_filter_map_step(all, f, i as int);
            }
            let ghost had = timings::pairs(out@);
            match self.found[i].as_compared() {
                Some(t) => {
                    out.push((self.names[i].as_str(), t));
                    assert(timings::pairs(out@) =~= had.push((self@.names[i as int], *t)));
                },
                None => {},
            }
            i += 1;
        }
        assert(all.take(i as int) =~= all);
        out
    }

    /// The report as it is printed, from how each entry shows itself.
    pub fn render(&self, shown: &Vec<String>) -> (out: String)
        requires
            shown@.len() == self@.names.len(),
        ensures
            out@ == report_text(self@.names, text::strings(shown@)),
    {
        let width: usize = layout::widest_of(&text::borrowed(&self.names));
        let ghost all = entry_texts(self@.names, text::strings(shown@));
        let mut out = String::new();
        let mut i: usize = 0;
        assert(all.take(0) =~= Seq::<Seq<char>>::empty());
        while i < self.names.len()
            invariant
                i <= self.names.len(),
                shown@.len() == self@.names.len(),
                self@.names == text::strings(self.names@),
                width == layout::widest(self@.names),
                all == entry_texts(self@.names, text::strings(shown@)),
                out@ == text::joined(all.take(i as int), "\n"@),
            decreases self.names.len() - i,
        {
            if i > 0 {
                out.append("\n");
            }
            append_entry(&mut out, self.names[i].as_str(), shown[i].as_str(), width);
            assert(all.take(i + 1).drop_last() =~= all.take(i as int));
            assert(out@ =~= text::joined(all.take(i + 1), "\n"@));
            i += 1;
        }
        assert(all.take(i as int) =~= all);
        out
    }
}

/// A name finds exactly what was measured under it first: something is found
/// where the name was measured, and it is one of the three kinds, never two.
pub proof fn law_a_name_finds_one_kind<S, M>(r: ReportView<S, M>, name: Seq<char>)
    requires
        r.well_formed(),
    ensures
        r.names.contains(name) <==> r.lookup(name) is Some,
        r.lookup(name) matches Some(f) ==> !(f.lone() is Some && f.compared() is Some) && (f.law()
            is Some ==> f.lone() is None && f.compared() is None),
{
    lemma_place(r.names, name);
    if r.names.contains(name) {
        let k = choose|k: int| 0 <= k < r.names.len() && r.names[k] == name;
        assert(k >= place(r.names, name));
    }
}

/// Whether a line shows nothing.
pub open spec fn blank(line: Seq<char>) -> bool {
    text::trimmed(line).len() == 0
}

/// Whether no line of a text is blank.
pub open spec fn no_blank_line(s: Seq<char>) -> bool {
    forall|k: int|
        0 <= k < text::pieces(s, '\n').len() ==> !blank(#[trigger] text::pieces(s, '\n')[k])
}

/// A text that shows something, with more before it, shows something.
proof fn lemma_not_blank(a: Seq<char>, b: Seq<char>)
    requires
        !blank(b),
    ensures
        !blank(a + b),
    decreases a.len(),
{
    if a.len() == 0 {
        assert(a + b =~= b);
    } else if text::is_space(a[0]) {
        assert((a + b).drop_first() =~= a.drop_first() + b);
        lemma_not_blank(a.drop_first(), b);
    } else {
        lemma_starts_shown(a + b);
    }
}

/// A text whose first character shows is not trimmed away.
proof fn lemma_starts_shown(s: Seq<char>)
    requires
        s.len() > 0,
        !text::is_space(s[0]),
    ensures
        text::trimmed_end(s).len() > 0,
        !blank(s),
    decreases s.len(),
{
    if text::is_space(s.last()) {
        assert(s.len() > 1);
        assert(s.drop_last()[0] == s[0]);
        lemma_starts_shown(s.drop_last());
    }
    assert(text::trimmed_start(s) == s);
}

/// Lines that show something, one list after another.
proof fn lemma_lines_add(a: Seq<char>, b: Seq<char>)
    requires
        no_blank_line(a),
        no_blank_line(b),
    ensures
        no_blank_line(a + seq!['\n'] + b),
{
    text::lemma_pieces_add(a, '\n', b);
    let pa = text::pieces(a, '\n');
    let pb = text::pieces(b, '\n');
    assert forall|k: int| 0 <= k < (pa + pb).len() implies !blank(#[trigger] (pa + pb)[k]) by {
        if k < pa.len() {
            assert((pa + pb)[k] == pa[k]);
        } else {
            assert((pa + pb)[k] == pb[k - pa.len()]);
        }
    }
}

/// One line that shows something.
proof fn lemma_one_line(s: Seq<char>)
    requires
        !s.contains('\n'),
        !blank(s),
    ensures
        no_blank_line(s),
{
    text::lemma_one_piece(s, '\n');
}

/// A printed report has no blank line, as long as no name breaks a line and
/// no entry has a blank line of its own once the end of it is trimmed.
pub proof fn law_a_report_has_no_blank_line(names: Seq<Seq<char>>, shown: Seq<Seq<char>>)
    requires
        names.len() > 0,
        names.len() == shown.len(),
        forall|i: int| 0 <= i < names.len() ==> !(#[trigger] names[i]).contains('\n'),
        forall|i: int|
            0 <= i < shown.len() ==> no_blank_line(text::trimmed_end(#[trigger] shown[i])),
    ensures
        no_blank_line(report_text(names, shown)),
{
    let width = layout::widest(names);
    let all = entry_texts(names, shown);
    reveal_strlit("\n");
    reveal_strlit(":\n");
    reveal_strlit("  ");
    assert("\n"@ =~= seq!['\n']);
    assert(":\n"@ =~= seq![':'] + seq!['\n']);
    assert forall|i: int| 0 <= i < all.len() implies no_blank_line(#[trigger] all[i]) by {
        let s = text::trimmed_end(shown[i]);
        if s.contains('\n') {
            let head = names[i] + seq![':'];
            lemma_starts_shown(seq![':']);
            lemma_not_blank(names[i], seq![':']);
            assert(!head.contains('\n')) by {
                if head.contains('\n') {
                    let k = choose|k: int| 0 <= k < head.len() && head[k] == '\n';
                    assert(k < names[i].len());
                    assert(names[i][k] == '\n');
                }
            }
            lemma_one_line(head);
            lemma_lines_add(head, s);
            assert(all[i] =~= head + seq!['\n'] + s);
        } else {
            text::lemma_one_piece(s, '\n');
            assert(text::pieces(s, '\n')[0] == s);
            let label = layout::left(names[i], width) + "  "@;
            lemma_not_blank(label, s);
            let line = label + s;
            assert(!line.contains('\n')) by {
                if line.contains('\n') {
                    let k = choose|k: int| 0 <= k < line.len() && line[k] == '\n';
                    if k < names[i].len() {
                        assert(names[i][k] == '\n');
                    } else if k >= label.len() {
                        assert(s[k - label.len()] == '\n');
                    }
                }
            }
            lemma_one_line(line);
            assert(all[i] =~= line);
        }
    }
    lemma_joined_lines(all);
}

/// Texts without a blank line, a line break between them, have none either.
proof fn lemma_joined_lines(all: Seq<Seq<char>>)
    requires
        all.len() > 0,
        forall|i: int| 0 <= i < all.len() ==> no_blank_line(#[trigger] all[i]),
    ensures
        no_blank_line(text::joined(all, seq!['\n'])),
    decreases all.len(),
{
    if all.len() > 1 {
        let rest = all.drop_last();
        assert forall|i: int| 0 <= i < rest.len() implies no_blank_line(#[trigger] rest[i]) by {
            assert(rest[i] == all[i]);
        }
        lemma_joined_lines(rest);
        assert(no_blank_line(all[all.len() - 1]));
        lemma_lines_add(text::joined(rest, seq!['\n']), all.last());
    }
}

} // verus!
