//! What holds of every filter, and of every way to ask for one.

use crate::filter;
use crate::filter::{ArgErrorView, FilterView};
use crate::text;
use crate::text_laws;
use vstd::prelude::*;

verus! {

/// Whether a pattern matches a name: it is the name where an exact match is
/// asked for, and otherwise the name has it somewhere, with anything before and
/// after it.
pub open spec fn matches_name(exact: bool, pattern: Seq<char>, name: Seq<char>) -> bool {
    if exact {
        pattern == name
    } else {
        exists|before: Seq<char>, after: Seq<char>| name == #[trigger] (before + pattern + after)
    }
}

/// A filter keeps a name exactly where one of its patterns matches it, or it
/// has none, and no skip pattern matches it.
pub proof fn law_what_a_filter_keeps(f: FilterView, name: Seq<char>)
    ensures
        f.keeps(name) <==> {
            &&& f.patterns.len() == 0 || exists|i: int|
                0 <= i < f.patterns.len() && matches_name(f.exact, #[trigger] f.patterns[i], name)
            &&& forall|i: int|
                0 <= i < f.skip.len() ==> !matches_name(f.exact, #[trigger] f.skip[i], name)
        },
{
    assert forall|p: Seq<char>| #[trigger] matches_name(f.exact, p, name) <==> f.hits(p, name) by {
        text_laws::law_a_part_stands_between(name, p);
    }
    if f.any_hits(f.patterns, name) {
        let i = choose|i: int| 0 <= i < f.patterns.len() && f.hits(#[trigger] f.patterns[i], name);
        assert(matches_name(f.exact, f.patterns[i], name));
    }
    if f.any_hits(f.skip, name) {
        let i = choose|i: int| 0 <= i < f.skip.len() && f.hits(#[trigger] f.skip[i], name);
        assert(matches_name(f.exact, f.skip[i], name));
    }
}

/// Arguments are read from left to right: what follows arguments that could
/// be read is read on top of what they asked for, and after one that means
/// nothing no more is read.
pub proof fn law_arguments_are_read_in_turn(
    args: Seq<Seq<char>>,
    more: Seq<Seq<char>>,
    f: FilterView,
)
    ensures
        match filter::read_args(args, f) {
            Ok(g) => filter::read_args(args + more, f) == filter::read_args(more, g),
            Err(ArgErrorView::Unknown(a)) => filter::read_args(args + more, f) == Err::<
                FilterView,
                ArgErrorView,
            >(ArgErrorView::Unknown(a)),
            Err(ArgErrorView::MissingValue(_)) => true,
        },
    decreases args.len(),
{
    let all = args + more;
    if args.len() == 0 {
        assert(all =~= more);
    } else {
        assert(all[0] == args[0]);
        assert(all.drop_first() =~= args.drop_first() + more);
        if args[0] == "--exact"@ {
            law_arguments_are_read_in_turn(
                args.drop_first(),
                more,
                FilterView { exact: true, ..f },
            );
        } else if args[0] == "--list"@ {
            law_arguments_are_read_in_turn(args.drop_first(), more, FilterView { list: true, ..f });
        } else if args.len() > 1 {
            assert(all[1] == args[1]);
            assert(all.skip(2) =~= args.skip(2) + more);
            law_arguments_are_read_in_turn(args.skip(2), more, f.with_pattern(args[1]));
            law_arguments_are_read_in_turn(args.skip(2), more, f.with_skip(args[1]));
        }
    }
}

/// The flags are different words, and none of them is one `cargo` adds.
proof fn lemma_flags()
    ensures
        "--exact"@ != "--list"@,
        "--exact"@ != "--filter"@,
        "--exact"@ != "--skip"@,
        "--list"@ != "--filter"@,
        "--list"@ != "--skip"@,
        "--filter"@ != "--skip"@,
        !filter::from_cargo("--exact"@),
        !filter::from_cargo("--list"@),
        !filter::from_cargo("--filter"@),
        !filter::from_cargo("--skip"@),
{
    reveal_strlit("--exact");
    reveal_strlit("--list");
    reveal_strlit("--filter");
    reveal_strlit("--skip");
    reveal_strlit("--bench");
    reveal_strlit("--test");
    assert("--exact"@[2] == 'e');
    assert("--list"@[2] == 'l');
    assert("--filter"@[2] == 'f');
    assert("--skip"@[2] == 's');
    assert("--bench"@[2] == 'b');
    assert("--test"@[2] == 't');
}

/// What one more argument at the end of a command line asks for: `--exact` and
/// `--list` set their own switch, `--filter` and `--skip` add the pattern that
/// follows them, and nothing else changes. A flag without its value, or
/// anything else, is refused by name.
pub proof fn law_what_a_command_line_asks_for(
    args: Seq<Seq<char>>,
    f: FilterView,
    value: Seq<char>,
)
    requires
        args.len() > 0,
        filter::asked_for(args) == Ok::<FilterView, ArgErrorView>(f),
        value != "--bench"@,
        value != "--test"@,
    ensures
        filter::asked_for(args.push("--exact"@)) == Ok::<FilterView, ArgErrorView>(
            FilterView { patterns: f.patterns, skip: f.skip, exact: true, list: f.list },
        ),
        filter::asked_for(args.push("--list"@)) == Ok::<FilterView, ArgErrorView>(
            FilterView { patterns: f.patterns, skip: f.skip, exact: f.exact, list: true },
        ),
        filter::asked_for(args.push("--filter"@).push(value)) == Ok::<FilterView, ArgErrorView>(
            FilterView {
                patterns: f.patterns.push(value),
                skip: f.skip,
                exact: f.exact,
                list: f.list,
            },
        ),
        filter::asked_for(args.push("--skip"@).push(value)) == Ok::<FilterView, ArgErrorView>(
            FilterView {
                patterns: f.patterns,
                skip: f.skip.push(value),
                exact: f.exact,
                list: f.list,
            },
        ),
        filter::asked_for(args.push("--filter"@)) == Err::<FilterView, ArgErrorView>(
            ArgErrorView::MissingValue("--filter"@),
        ),
        filter::asked_for(args.push("--skip"@)) == Err::<FilterView, ArgErrorView>(
            ArgErrorView::MissingValue("--skip"@),
        ),
        value != "--exact"@ && value != "--list"@ && value != "--filter"@ && value != "--skip"@
            ==> filter::asked_for(args.push(value)) == Err::<FilterView, ArgErrorView>(
            ArgErrorView::Unknown(value),
        ),
{
    lemma_flags();
    let own = filter::own_args(args);
    lemma_own_args_push(args, "--exact"@);
    lemma_own_args_push(args, "--list"@);
    lemma_own_args_push(args, "--filter"@);
    lemma_own_args_push(args, "--skip"@);
    lemma_own_args_push(args.push("--filter"@), value);
    lemma_own_args_push(args.push("--skip"@), value);
    lemma_own_args_push(args, value);
    lemma_read_one(own, f, "--exact"@);
    lemma_read_one(own, f, "--list"@);
    lemma_read_one(own, f, "--filter"@);
    lemma_read_one(own, f, "--skip"@);
    lemma_read_one(own, f, value);
    lemma_read_two(own, f, "--filter"@, value);
    lemma_read_two(own, f, "--skip"@, value);
}

/// One more argument that is not from `cargo` is one more to read.
proof fn lemma_own_args_push(args: Seq<Seq<char>>, arg: Seq<char>)
    requires
        args.len() > 0,
        !filter::from_cargo(arg),
    ensures
        filter::own_args(args.push(arg)) == filter::own_args(args).push(arg),
{
    let keep = |a: Seq<char>| !filter::from_cargo(a);
    let rest = args.drop_first();
    assert(args.push(arg).drop_first() =~= rest.push(arg));
    reveal(Seq::filter);
    assert(rest.push(arg).drop_last() =~= rest);
    assert(rest.push(arg).last() == arg);
}

/// Reading one more argument.
proof fn lemma_read_one(own: Seq<Seq<char>>, f: FilterView, arg: Seq<char>)
    requires
        filter::read_args(own, FilterView::everything()) == Ok::<FilterView, ArgErrorView>(f),
    ensures
        filter::read_args(own.push(arg), FilterView::everything()) == if arg == "--exact"@ {
            Ok::<FilterView, ArgErrorView>(FilterView { exact: true, ..f })
        } else if arg == "--list"@ {
            Ok(FilterView { list: true, ..f })
        } else if arg == "--filter"@ || arg == "--skip"@ {
            Err(ArgErrorView::MissingValue(arg))
        } else {
            Err(ArgErrorView::Unknown(arg))
        },
{
    let one = seq![arg];
    law_arguments_are_read_in_turn(own, one, FilterView::everything());
    assert(own + one =~= own.push(arg));
    assert(one.drop_first() =~= Seq::<Seq<char>>::empty());
    reveal_with_fuel(filter::read_args, 2);
}

/// Reading a flag with its value.
proof fn lemma_read_two(own: Seq<Seq<char>>, f: FilterView, flag: Seq<char>, value: Seq<char>)
    requires
        filter::read_args(own, FilterView::everything()) == Ok::<FilterView, ArgErrorView>(f),
        flag == "--filter"@ || flag == "--skip"@,
    ensures
        filter::read_args(own.push(flag).push(value), FilterView::everything()) == Ok::<
            FilterView,
            ArgErrorView,
        >(
            if flag == "--filter"@ {
                f.with_pattern(value)
            } else {
                f.with_skip(value)
            },
        ),
{
    let two = seq![flag, value];
    lemma_flags();
    law_arguments_are_read_in_turn(own, two, FilterView::everything());
    assert(own + two =~= own.push(flag).push(value));
    assert(two.skip(2) =~= Seq::<Seq<char>>::empty());
    reveal_with_fuel(filter::read_args, 2);
}

/// An environment gives the patterns of its first variable and the skip
/// patterns of its second, each the words written there; it asks for exact
/// matches by a `1` alone, and never for a list.
pub proof fn law_what_an_environment_asks_for(
    patterns: Seq<Seq<char>>,
    skips: Seq<Seq<char>>,
    exact: Option<Seq<char>>,
)
    requires
        forall|i: int| 0 <= i < patterns.len() ==> text_laws::is_word(#[trigger] patterns[i]),
        forall|i: int| 0 <= i < skips.len() ==> text_laws::is_word(#[trigger] skips[i]),
    ensures
        ({
            let (p, s) = (text::joined(patterns, seq![' ']), text::joined(skips, seq![' ']));
            let f = filter::asked_by_environment(Some(p), Some(s), exact);
            &&& f.patterns == patterns
            &&& f.skip == skips
            &&& f.exact <==> exact == Some(seq!['1'])
            &&& !f.list
            &&& filter::asked_by_environment(None, Some(s), exact) == FilterView {
                patterns: Seq::empty(),
                ..f
            }
            &&& filter::asked_by_environment(Some(p), None, exact) == FilterView {
                skip: Seq::empty(),
                ..f
            }
        }),
{
    text_laws::law_words_are_what_was_joined(patterns);
    text_laws::law_words_are_what_was_joined(skips);
    reveal_strlit("1");
    assert("1"@ =~= seq!['1']);
}

/// A command line of the program's name alone, or of nothing at all, asks for
/// everything: no pattern, no skip, no exact match and no list.
pub proof fn law_no_arguments_ask_for_everything(program: Seq<char>, f: FilterView)
    ensures
        filter::asked_for(seq![program]) == Ok::<FilterView, ArgErrorView>(f) <==> {
            &&& f.patterns.len() == 0
            &&& f.skip.len() == 0
            &&& !f.exact
            &&& !f.list
        },
        filter::asked_for(Seq::empty()) == filter::asked_for(seq![program]),
{
    let none = Seq::<Seq<char>>::empty();
    assert(seq![program].drop_first() =~= none);
    assert(none.filter(|a: Seq<char>| !filter::from_cargo(a)) =~= none) by {
        reveal(Seq::filter);
    }
    if f.patterns.len() == 0 && f.skip.len() == 0 && !f.exact && !f.list {
        assert(f =~= FilterView::everything());
    }
}

/// `--bench` and `--test`, which `cargo` adds by itself, ask for nothing
/// wherever they stand after the program's name.
pub proof fn law_what_cargo_adds_asks_for_nothing(before: Seq<Seq<char>>, after: Seq<Seq<char>>)
    requires
        before.len() > 0,
    ensures
        filter::asked_for(before + seq!["--bench"@] + after) == filter::asked_for(before + after),
        filter::asked_for(before + seq!["--test"@] + after) == filter::asked_for(before + after),
{
    filter::law_cargo_flags_are_ignored(before, "--bench"@, after);
    filter::law_cargo_flags_are_ignored(before, "--test"@, after);
}

} // verus!
