//! Running only some of a suite's benchmarks.

use crate::lists;
use crate::text;
use vstd::prelude::*;

verus! {

/// Which benchmarks of a suite to measure.
///
/// A filter is matched against the name the report shows. A pattern is a
/// substring unless [`Filter::exact`] is set, several patterns are an *or*,
/// and anything matching a skip pattern is dropped afterwards, so a skip can
/// carve a hole in a broad filter.
///
/// Filtering happens per entry: a comparison is in or out entire, since its
/// alternatives are measured in one interleaved round precisely so that their
/// differences are paired.
#[derive(Debug, Clone, PartialEq, Eq)]
pub struct Filter {
    patterns: Vec<String>,
    skip: Vec<String>,
    exact: bool,
    list: bool,
}

/// The values of a [`Filter`].
#[verifier::ext_equal]
pub struct FilterView {
    pub patterns: Seq<Seq<char>>,
    pub skip: Seq<Seq<char>>,
    pub exact: bool,
    pub list: bool,
}

impl View for Filter {
    type V = FilterView;

    closed spec fn view(&self) -> FilterView {
        FilterView {
            patterns: text::strings(self.patterns@),
            skip: text::strings(self.skip@),
            exact: self.exact,
            list: self.list,
        }
    }
}

impl FilterView {
    /// The filter that keeps everything.
    pub open spec fn everything() -> FilterView {
        FilterView { patterns: Seq::empty(), skip: Seq::empty(), exact: false, list: false }
    }

    /// Whether `pattern` matches `name`.
    pub open spec fn hits(self, pattern: Seq<char>, name: Seq<char>) -> bool {
        if self.exact {
            name == pattern
        } else {
            text::has_part(name, pattern)
        }
    }

    /// Whether one of `patterns` matches `name`.
    pub open spec fn any_hits(self, patterns: Seq<Seq<char>>, name: Seq<char>) -> bool {
        exists|i: int| 0 <= i < patterns.len() && self.hits(#[trigger] patterns[i], name)
    }

    /// Whether a benchmark called `name` is kept.
    pub open spec fn keeps(self, name: Seq<char>) -> bool {
        (self.patterns.len() == 0 || self.any_hits(self.patterns, name)) && !self.any_hits(
            self.skip,
            name,
        )
    }

    /// This filter with one more pattern.
    pub open spec fn with_pattern(self, pattern: Seq<char>) -> FilterView {
        FilterView { patterns: self.patterns.push(pattern), ..self }
    }

    /// This filter with one more skip pattern.
    pub open spec fn with_skip(self, pattern: Seq<char>) -> FilterView {
        FilterView { skip: self.skip.push(pattern), ..self }
    }
}

/// What is wrong with the arguments a filter was to be made from.
#[derive(Debug, Clone, PartialEq, Eq)]
pub enum ArgError {
    /// An argument that means nothing here.
    Unknown(String),
    /// A flag that wants a value and is the last argument.
    MissingValue(String),
}

/// The values of an [`ArgError`].
pub enum ArgErrorView {
    Unknown(Seq<char>),
    MissingValue(Seq<char>),
}

impl View for ArgError {
    type V = ArgErrorView;

    open spec fn view(&self) -> ArgErrorView {
        match *self {
            ArgError::Unknown(s) => ArgErrorView::Unknown(s@),
            ArgError::MissingValue(s) => ArgErrorView::MissingValue(s@),
        }
    }
}

/// Whether an argument is one that `cargo` adds by itself.
pub open spec fn from_cargo(arg: Seq<char>) -> bool {
    arg == "--bench"@ || arg == "--test"@
}

/// Read `args`, which no longer hold what `cargo` added, on top of `f`.
pub open spec fn read_args(args: Seq<Seq<char>>, f: FilterView) -> Result<FilterView, ArgErrorView>
    decreases args.len(),
{
    if args.len() == 0 {
        Ok(f)
    } else if args[0] == "--exact"@ {
        read_args(args.drop_first(), FilterView { exact: true, ..f })
    } else if args[0] == "--list"@ {
        read_args(args.drop_first(), FilterView { list: true, ..f })
    } else if args[0] == "--filter"@ || args[0] == "--skip"@ {
        if args.len() == 1 {
            Err(ArgErrorView::MissingValue(args[0]))
        } else if args[0] == "--filter"@ {
            read_args(args.skip(2), f.with_pattern(args[1]))
        } else {
            read_args(args.skip(2), f.with_skip(args[1]))
        }
    } else {
        Err(ArgErrorView::Unknown(args[0]))
    }
}

/// The arguments after the program's name.
pub open spec fn after_name(args: Seq<Seq<char>>) -> Seq<Seq<char>> {
    if args.len() == 0 {
        args
    } else {
        args.drop_first()
    }
}

/// The arguments after the program's name, without what `cargo` added.
pub open spec fn own_args(args: Seq<Seq<char>>) -> Seq<Seq<char>> {
    after_name(args).filter(|a: Seq<char>| !from_cargo(a))
}

/// The filter that a command line asks for.
pub open spec fn asked_for(args: Seq<Seq<char>>) -> Result<FilterView, ArgErrorView> {
    read_args(own_args(args), FilterView::everything())
}

/// The filter that an environment asks for.
pub open spec fn asked_by_environment(
    patterns: Option<Seq<char>>,
    skips: Option<Seq<char>>,
    exact: Option<Seq<char>>,
) -> FilterView {
    FilterView {
        patterns: match patterns {
            Some(p) => text::words(p),
            None => Seq::empty(),
        },
        skip: match skips {
            Some(s) => text::words(s),
            None => Seq::empty(),
        },
        exact: exact == Some("1"@),
        list: false,
    }
}

/// Whether one of `patterns` matches `name`.
fn any_matches(patterns: &Vec<String>, exact: bool, name: &str, Ghost(f): Ghost<FilterView>) -> (hit:
    bool)
    requires
        f.exact == exact,
    ensures
        hit == f.any_hits(text::strings(patterns@), name@),
{
    let ghost all = text::strings(patterns@);
    let mut i: usize = 0;
    while i < patterns.len()
        invariant
            i <= patterns.len(),
            f.exact == exact,
            all == text::strings(patterns@),
            forall|k: int| 0 <= k < i ==> !f.hits(#[trigger] all[k], name@),
        decreases patterns.len() - i,
    {
        let hit = if exact {
            text::same_text(name, patterns[i].as_str())
        } else {
            text::contains_text(name, patterns[i].as_str())
        };
        assert(all[i as int] == patterns@[i as int]@);
        if hit {
            return true;
        }
        i += 1;
    }
    false
}

/// Add the words of `list` to the end of `out`.
fn add_words(out: &mut Vec<String>, list: &str)
    ensures
        text::strings(final(out)@) == text::strings(old(out)@) + text::words(list@),
{
    let words = text::split_white_space(list);
    let ghost all = text::texts(words@);
    let mut i: usize = 0;
    assert(text::strings(out@) + all.take(0) =~= text::strings(out@));
    while i < words.len()
        invariant
            i <= words.len(),
            all == text::texts(words@),
            text::strings(out@) == text::strings(old(out)@) + all.take(i as int),
        decreases words.len() - i,
    {
        let ghost had = text::strings(out@);
        out.push(words[i].to_owned());
        assert(text::strings(out@) =~= had.push(all[i as int]));
        assert(text::strings(old(out)@) + all.take(i + 1) =~= had.push(all[i as int]));
        i += 1;
    }
    assert(all.take(i as int) =~= all);
}

impl Filter {
    /// Measure everything, which is what a suite does without one.
    pub fn everything() -> (f: Filter)
        ensures
            f@ == FilterView::everything(),
    {
        let f = Filter { patterns: Vec::new(), skip: Vec::new(), exact: false, list: false };
        assert(f@ =~= FilterView::everything());
        f
    }

    /// Keep only names matching this. Repeating it widens the filter.
    pub fn matching(self, pattern: &str) -> (f: Filter)
        ensures
            f@ == self@.with_pattern(pattern@),
    {
        let mut f = self;
        f.patterns.push(pattern.to_owned());
        assert(f@ =~= self@.with_pattern(pattern@));
        f
    }

    /// Drop names matching this, after the patterns have been applied.
    pub fn skipping(self, pattern: &str) -> (f: Filter)
        ensures
            f@ == self@.with_skip(pattern@),
    {
        let mut f = self;
        f.skip.push(pattern.to_owned());
        assert(f@ =~= self@.with_skip(pattern@));
        f
    }

    /// Match whole names rather than any part of them.
    pub fn exact(self, exact: bool) -> (f: Filter)
        ensures
            f@ == (FilterView { exact, ..self@ }),
    {
        let mut f = self;
        f.exact = exact;
        f
    }

    /// Whether the caller asked to be told what would run rather than to run
    /// it.
    pub fn is_listing(&self) -> (list: bool)
        ensures
            list == self@.list,
    {
        self.list
    }

    /// Ask to be told what would run rather than running it.
    pub fn listing(self, list: bool) -> (f: Filter)
        ensures
            f@ == (FilterView { list, ..self@ }),
    {
        let mut f = self;
        f.list = list;
        f
    }

    /// Whether a benchmark of this name should be measured.
    ///
    /// No patterns means everything, so that a filter carrying only a skip
    /// does what it looks like it does.
    pub fn matches(&self, name: &str) -> (kept: bool)
        ensures
            kept == self@.keeps(name@),
    {
        if self.patterns.len() > 0 && !any_matches(&self.patterns, self.exact, name, Ghost(self@)) {
            return false;
        }
        !any_matches(&self.skip, self.exact, name, Ghost(self@))
    }

    /// The filter that a command line asks for.
    ///
    /// `args` starts with the program's name. `--filter` and `--skip` take
    /// the pattern that follows them and may be repeated; `--exact` and
    /// `--list` stand alone. The `--bench` and `--test` that `cargo` adds by
    /// itself are ignored, and anything else is an error: a typo in a flag
    /// must not quietly measure everything.
    pub fn from_arg_iter(args: &[&str]) -> (result: Result<Filter, ArgError>)
        ensures
            match result {
                Ok(f) => asked_for(text::texts(args@)) == Ok::<FilterView, ArgErrorView>(f@),
                Err(e) => asked_for(text::texts(args@)) == Err::<FilterView, ArgErrorView>(e@),
            },
    {
        let ghost all = text::texts(args@);
        let ghost tail = after_name(all);
        let ghost keep = |a: Seq<char>| !from_cargo(a);
        let mut own: Vec<&str> = Vec::new();
        let mut i: usize = 1;
        proof {
            reveal(Seq::filter);
            assert(tail.take(0) =~= Seq::<Seq<char>>::empty());
            assert(text::texts(own@) =~= tail.take(0).filter(keep));
        }
        while i < args.len()
            invariant
                1 <= i,
                args@.len() > 0 ==> i <= args@.len(),
                args@.len() == 0 ==> i == 1,
                all == text::texts(args@),
                tail == after_name(all),
                keep == (|a: Seq<char>| !from_cargo(a)),
                text::texts(own@) == tail.take(i - 1).filter(keep),
            decreases args@.len() - i,
        {
            let ghost had = text::texts(own@);
            proof {
                assert(tail[i - 1] == args@[i as int]@);
                lists::lemma_filter_step(tail, keep, i - 1);
            }
            if !text::same_text(args[i], "--bench") && !text::same_text(args[i], "--test") {
                own.push(args[i]);
                assert(text::texts(own@) =~= had.push(tail[i - 1]));
            }
            i += 1;
        }
        assert(tail.take(i - 1) =~= tail);
        let ghost mine = text::texts(own@);
        assert(mine == own_args(all));
        let mut f = Filter::everything();
        let mut k: usize = 0;
        assert(mine.skip(0) =~= mine);
        while k < own.len()
            invariant
                k <= own.len(),
                mine == text::texts(own@),
                mine == own_args(text::texts(args@)),
                read_args(mine.skip(k as int), f@) == read_args(mine, FilterView::everything()),
            decreases own.len() - k,
        {
            let ghost rest = mine.skip(k as int);
            let arg = own[k];
            assert(rest[0] == arg@);
            assert(rest.drop_first() =~= mine.skip(k + 1));
            if text::same_text(arg, "--exact") {
                f = f.exact(true);
                k += 1;
            } else if text::same_text(arg, "--list") {
                f = f.listing(true);
                k += 1;
            } else if text::same_text(arg, "--filter") || text::same_text(arg, "--skip") {
                if own.len() - k == 1 {
                    return Err(ArgError::MissingValue(arg.to_owned()));
                }
                assert(rest[1] == own@[k + 1]@);
                assert(rest.skip(2) =~= mine.skip(k + 2));
                if text::same_text(arg, "--filter") {
                    f = f.matching(own[k + 1]);
                } else {
                    f = f.skipping(own[k + 1]);
                }
                k += 2;
            } else {
                return Err(ArgError::Unknown(arg.to_owned()));
            }
        }
        Ok(f)
    }

    /// The filter that an environment asks for: patterns and skip patterns
    /// separated by white space, and `"1"` to match whole names.
    ///
    /// The environment is what survives a wrapper that was never taught to
    /// pass arguments through.
    pub fn from_env(
        patterns: Option<&str>,
        skips: Option<&str>,
        exact: Option<&str>,
    ) -> (f: Filter)
        ensures
            f@ == asked_by_environment(
                text::maybe(patterns),
                text::maybe(skips),
                text::maybe(exact),
            ),
    {
        let mut wanted: Vec<String> = Vec::new();
        assert(text::strings(wanted@) =~= Seq::<Seq<char>>::empty());
        match patterns {
            Some(p) => {
                add_words(&mut wanted, p);
                assert(text::strings(wanted@) =~= text::words(p@));
            },
            None => {},
        }
        let mut skip: Vec<String> = Vec::new();
        assert(text::strings(skip@) =~= Seq::<Seq<char>>::empty());
        match skips {
            Some(s) => {
                add_words(&mut skip, s);
                assert(text::strings(skip@) =~= text::words(s@));
            },
            None => {},
        }
        let whole = match exact {
            Some(e) => text::same_text(e, "1"),
            None => false,
        };
        Filter { patterns: wanted, skip, exact: whole, list: false }
    }
}

/// A filter with nothing in it keeps everything.
pub proof fn law_an_empty_filter_keeps_everything(name: Seq<char>)
    ensures
        FilterView::everything().keeps(name),
{
}

/// Patterns are an *or*: one more pattern keeps what the patterns there kept,
/// and what it matches itself.
pub proof fn law_patterns_widen(f: FilterView, pattern: Seq<char>, name: Seq<char>)
    requires
        f.patterns.len() > 0,
    ensures
        f.with_pattern(pattern).keeps(name) <==> f.keeps(name) || (f.hits(pattern, name)
            && !f.any_hits(f.skip, name)),
{
    let g = f.with_pattern(pattern);
    lemma_hits_push(f, f.patterns, pattern, name);
    assert(g.any_hits(g.patterns, name) == f.any_hits(g.patterns, name));
    assert(g.any_hits(g.skip, name) == f.any_hits(f.skip, name));
}

/// A skip narrows: it drops what it matches and nothing else.
pub proof fn law_skips_narrow(f: FilterView, pattern: Seq<char>, name: Seq<char>)
    ensures
        f.with_skip(pattern).keeps(name) <==> f.keeps(name) && !f.hits(pattern, name),
{
    let g = f.with_skip(pattern);
    lemma_hits_push(f, f.skip, pattern, name);
    assert(g.any_hits(g.patterns, name) == f.any_hits(f.patterns, name));
    assert(g.any_hits(g.skip, name) == f.any_hits(g.skip, name));
}

/// What one more pattern matches.
proof fn lemma_hits_push(
    f: FilterView,
    patterns: Seq<Seq<char>>,
    pattern: Seq<char>,
    name: Seq<char>,
)
    ensures
        f.any_hits(patterns.push(pattern), name) <==> f.any_hits(patterns, name) || f.hits(
            pattern,
            name,
        ),
{
    let more = patterns.push(pattern);
    if f.any_hits(patterns, name) {
        let i = choose|i: int| 0 <= i < patterns.len() && f.hits(#[trigger] patterns[i], name);
        assert(more[i] == patterns[i]);
    }
    if f.hits(pattern, name) {
        assert(more[patterns.len() as int] == pattern);
    }
    if f.any_hits(more, name) {
        let i = choose|i: int| 0 <= i < more.len() && f.hits(#[trigger] more[i], name);
        if i < patterns.len() {
            assert(patterns[i] == more[i]);
        }
    }
}

/// A filter with only an exact name keeps that name and no other.
pub proof fn law_exact_keeps_one_name(pattern: Seq<char>, name: Seq<char>)
    ensures
        (FilterView { exact: true, ..FilterView::everything() }).with_pattern(pattern).keeps(name)
            <==> name == pattern,
{
    let f = (FilterView { exact: true, ..FilterView::everything() }).with_pattern(pattern);
    assert(f.patterns[0] == pattern);
}

/// What `cargo` adds by itself changes nothing, wherever it stands after the
/// program's name.
pub proof fn law_cargo_flags_are_ignored(
    before: Seq<Seq<char>>,
    flag: Seq<char>,
    after: Seq<Seq<char>>,
)
    requires
        before.len() > 0,
        from_cargo(flag),
    ensures
        asked_for(before + seq![flag] + after) == asked_for(before + after),
{
    let keep = |a: Seq<char>| !from_cargo(a);
    let head = before.drop_first();
    assert((before + seq![flag] + after).drop_first() =~= head + (seq![flag] + after));
    assert((before + after).drop_first() =~= head + after);
    Seq::filter_distributes_over_add(head, seq![flag] + after, keep);
    Seq::filter_distributes_over_add(seq![flag], after, keep);
    Seq::filter_distributes_over_add(head, after, keep);
    assert(seq![flag].filter(keep) =~= Seq::<Seq<char>>::empty()) by {
        reveal_with_fuel(Seq::<_>::filter, 2);
        assert(seq![flag].drop_last() =~= Seq::<Seq<char>>::empty());
        assert(seq![flag].last() == flag);
    }
    assert(head.filter(keep) + (Seq::<Seq<char>>::empty() + after.filter(keep)) =~= head.filter(
        keep,
    ) + after.filter(keep));
}

} // verus!
