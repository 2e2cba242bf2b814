//! What holds of every text.

use crate::text;
use vstd::prelude::*;

verus! {

/// A text is part of another exactly where the other is something, the text,
/// and something more.
pub proof fn law_a_part_stands_between(s: Seq<char>, needle: Seq<char>)
    ensures
        text::has_part(s, needle) <==> exists|before: Seq<char>, after: Seq<char>|
            s == #[trigger] (before + needle + after),
{
    if text::has_part(s, needle) {
        let at = choose|at: int| text::stands_at(s, needle, at);
        let (before, after) = (s.take(at), s.skip(at + needle.len()));
        assert(s =~= before + needle + after);
    }
    if exists|before: Seq<char>, after: Seq<char>| s == #[trigger] (before + needle + after) {
        let (before, after) = choose|before: Seq<char>, after: Seq<char>|
            s == #[trigger] (before + needle + after);
        let at = before.len() as int;
        assert(s.subrange(at, at + needle.len()) =~= needle);
        assert(text::stands_at(s, needle, at));
    }
}

/// Whether a text is a word: it is not empty and holds no white space.
pub open spec fn is_word(s: Seq<char>) -> bool {
    s.len() > 0 && forall|i: int| 0 <= i < s.len() ==> !text::is_space(#[trigger] s[i])
}

/// How long a word is that starts a text.
proof fn lemma_word_length(w: Seq<char>, rest: Seq<char>)
    requires
        forall|i: int| 0 <= i < w.len() ==> !text::is_space(#[trigger] w[i]),
        rest.len() > 0 ==> text::is_space(rest[0]),
    ensures
        text::word_length(w + rest) == w.len(),
    decreases w.len(),
{
    if w.len() == 0 {
        assert(w + rest =~= rest);
    } else {
        assert(!text::is_space(w[0]));
        assert((w + rest).drop_first() =~= w.drop_first() + rest);
        lemma_word_length(w.drop_first(), rest);
    }
}

/// The words of a text that starts with one.
proof fn lemma_words_first(w: Seq<char>, rest: Seq<char>)
    requires
        is_word(w),
        rest.len() > 0 ==> text::is_space(rest[0]),
    ensures
        text::words(w + rest) == seq![w] + text::words(rest),
{
    let s = w + rest;
    assert(!text::is_space(w[0]));
    assert(text::trimmed_start(s) == s);
    lemma_word_length(w, rest);
    assert(s.take(w.len() as int) =~= w);
    assert(s.skip(w.len() as int) =~= rest);
}

/// White space before a text changes none of its words.
proof fn lemma_words_after_space(rest: Seq<char>)
    ensures
        text::words(seq![' '] + rest) == text::words(rest),
{
    let s = seq![' '] + rest;
    assert(s.drop_first() =~= rest);
    assert(text::is_space(s[0]));
    assert(text::trimmed_start(s) == text::trimmed_start(rest));
    text::lemma_trimmed_start(rest);
}

/// Joined parts start with the first of them.
pub proof fn lemma_joined_first(parts: Seq<Seq<char>>, sep: Seq<char>)
    requires
        parts.len() > 1,
    ensures
        text::joined(parts, sep) == parts[0] + sep + text::joined(parts.drop_first(), sep),
    decreases parts.len(),
{
    let rest = parts.drop_first();
    if parts.len() == 2 {
        assert(parts.drop_last() =~= seq![parts[0]]);
        assert(rest =~= seq![parts[1]]);
        reveal_with_fuel(text::joined, 3);
    } else {
        lemma_joined_first(parts.drop_last(), sep);
        assert(parts.drop_last().drop_first() =~= rest.drop_last());
        assert(text::joined(parts, sep) =~= parts[0] + sep + text::joined(rest, sep));
    }
}

/// Words written one after another, with a space between neighbours, are read
/// as those words.
pub proof fn law_words_are_what_was_joined(ws: Seq<Seq<char>>)
    requires
        forall|i: int| 0 <= i < ws.len() ==> is_word(#[trigger] ws[i]),
    ensures
        text::words(text::joined(ws, seq![' '])) == ws,
    decreases ws.len(),
{
    let s = text::joined(ws, seq![' ']);
    if ws.len() == 0 {
        assert(text::words(s) =~= ws);
    } else if ws.len() == 1 {
        assert(is_word(ws[0]));
        lemma_words_first(ws[0], Seq::empty());
        assert(ws[0] + Seq::<char>::empty() =~= ws[0]);
        assert(text::words(Seq::<char>::empty()) =~= Seq::<Seq<char>>::empty());
        assert(text::words(s) =~= ws);
    } else {
        let rest = ws.drop_first();
        assert forall|i: int| 0 <= i < rest.len() implies is_word(#[trigger] rest[i]) by {
            assert(rest[i] == ws[i + 1]);
        }
        law_words_are_what_was_joined(rest);
        lemma_joined_first(ws, seq![' ']);
        assert(is_word(ws[0]));
        let tail = seq![' '] + text::joined(rest, seq![' ']);
        assert(s =~= ws[0] + tail);
        lemma_words_first(ws[0], tail);
        lemma_words_after_space(text::joined(rest, seq![' ']));
        assert(seq![ws[0]] + rest =~= ws);
    }
}

/// A number in decimal has one digit more than a tenth of it, which says how
/// much is left over, and no leading zero; it reads back as itself.
pub proof fn law_decimal_is_positional(n: nat, d: nat)
    requires
        d < 10,
    ensures
        text::decimal(d) == seq![seq!['0', '1', '2', '3', '4', '5', '6', '7', '8', '9'][d as int]],
        n > 0 ==> text::decimal(10 * n + d) == text::decimal(n) + text::decimal(d),
        n > 0 ==> text::decimal(n)[0] != '0',
        text::number_up_to(text::decimal(n), n) == Some(n),
    decreases n,
{
    text::lemma_decimal_reads_back(n, n);
    let all = seq!['0', '1', '2', '3', '4', '5', '6', '7', '8', '9'];
    assert(text::digit(d) == all[d as int]);
    assert(text::decimal(d) =~= seq![all[d as int]]);
    if n > 0 {
        assert((10 * n + d) / 10 == n && (10 * n + d) % 10 == d);
        assert(text::decimal(10 * n + d) =~= text::decimal(n) + text::decimal(d));
        if n >= 10 {
            law_decimal_is_positional(n / 10, 0);
        }
    }
}

/// Splitting and joining undo each other: the pieces of a text hold no
/// separator, and joined again they give the text.
pub proof fn law_pieces_join_again(s: Seq<char>, sep: char)
    ensures
        text::pieces(s, sep).len() > 0,
        forall|i: int|
            0 <= i < text::pieces(s, sep).len() ==> !(#[trigger] text::pieces(s, sep)[i]).contains(
                sep,
            ),
        text::joined(text::pieces(s, sep), seq![sep]) == s,
    decreases s.len(),
{
    text::lemma_first_index(s, sep);
    let k = text::first_index(s, sep);
    let all = text::pieces(s, sep);
    if k >= s.len() {
        assert(!s.contains(sep)) by {
            if s.contains(sep) {
                let i = choose|i: int| 0 <= i < s.len() && s[i] == sep;
                assert(s[i] != sep);
            }
        }
        text::lemma_one_piece(s, sep);
    } else {
        let (head, rest) = (s.take(k), s.skip(k + 1));
        law_pieces_join_again(rest, sep);
        assert(!head.contains(sep)) by {
            if head.contains(sep) {
                let i = choose|i: int| 0 <= i < head.len() && head[i] == sep;
                assert(s[i] != sep);
            }
        }
        text::lemma_one_piece(head, sep);
        text::lemma_pieces_add(head, sep, rest);
        assert(s =~= head + seq![sep] + rest);
        assert(all == seq![head] + text::pieces(rest, sep));
        lemma_joined_first(all, seq![sep]);
        assert(all.drop_first() =~= text::pieces(rest, sep));
        assert forall|i: int| 0 <= i < all.len() implies !(#[trigger] all[i]).contains(sep) by {
            if i > 0 {
                assert(all[i] == text::pieces(rest, sep)[i - 1]);
            }
        }
    }
}

/// Trimming takes white space from both ends and nothing else.
pub proof fn law_trimming(s: Seq<char>)
    ensures
        exists|a: int, b: int|
            0 <= a <= b <= s.len() && text::trimmed(s) == #[trigger] s.subrange(a, b) && (forall|
                i: int,
            |
                0 <= i < a || b <= i < s.len() ==> text::is_space(#[trigger] s[i])),
        text::trimmed(s).len() > 0 ==> !text::is_space(text::trimmed(s)[0]) && !text::is_space(
            text::trimmed(s).last(),
        ),
{
    let a = lemma_start(s);
    let t = text::trimmed_start(s);
    let b = lemma_end(t);
    assert(text::trimmed(s) == text::trimmed_end(t));
    assert(text::trimmed(s) =~= s.subrange(a, a + b));
    assert forall|i: int| 0 <= i < a || a + b <= i < s.len() implies text::is_space(
        #[trigger] s[i],
    ) by {
        if a + b <= i {
            assert(t[i - a] == s[i]);
        }
    }
}

/// Where trimming the start leaves off.
proof fn lemma_start(s: Seq<char>) -> (a: int)
    ensures
        0 <= a <= s.len(),
        text::trimmed_start(s) == s.skip(a),
        forall|i: int| 0 <= i < a ==> text::is_space(#[trigger] s[i]),
        a < s.len() ==> !text::is_space(s[a]),
    decreases s.len(),
{
    if s.len() > 0 && text::is_space(s[0]) {
        let a = lemma_start(s.drop_first());
        assert(s.drop_first().skip(a) =~= s.skip(a + 1));
        assert forall|i: int| 0 <= i < a + 1 implies text::is_space(#[trigger] s[i]) by {
            if i > 0 {
                assert(s.drop_first()[i - 1] == s[i]);
            }
        }
        a + 1
    } else {
        assert(s.skip(0) =~= s);
        0
    }
}

/// Where trimming the end leaves off.
proof fn lemma_end(s: Seq<char>) -> (b: int)
    ensures
        0 <= b <= s.len(),
        text::trimmed_end(s) == s.take(b),
        forall|i: int| b <= i < s.len() ==> text::is_space(#[trigger] s[i]),
        b > 0 ==> !text::is_space(s[b - 1]),
    decreases s.len(),
{
    if s.len() > 0 && text::is_space(s.last()) {
        let b = lemma_end(s.drop_last());
        assert(s.drop_last().take(b) =~= s.take(b));
        assert forall|i: int| b <= i < s.len() implies text::is_space(#[trigger] s[i]) by {
            if i < s.len() - 1 {
                assert(s.drop_last()[i] == s[i]);
            }
        }
        b
    } else {
        assert(s.take(s.len() as int) =~= s);
        s.len() as int
    }
}

/// Texts sort by the first character in which they differ, and one that the
/// other only goes on from comes first.
pub proof fn law_texts_sort_like_a_dictionary(
    common: Seq<char>,
    x: char,
    y: char,
    a: Seq<char>,
    b: Seq<char>,
)
    requires
        (x as int) < (y as int),
    ensures
        text::text_before(common + seq![x] + a, common + seq![y] + b),
        !text::text_before(common + seq![y] + b, common + seq![x] + a),
        text::text_before(common, common + seq![x] + a),
        !text::text_before(common + seq![x] + a, common),
    decreases common.len(),
{
    let (s, t) = (common + seq![x] + a, common + seq![y] + b);
    if common.len() > 0 {
        let rest = common.drop_first();
        law_texts_sort_like_a_dictionary(rest, x, y, a, b);
        assert(s.drop_first() =~= rest + seq![x] + a);
        assert(t.drop_first() =~= rest + seq![y] + b);
        assert(s[0] == common[0] && t[0] == common[0]);
    } else {
        assert(s[0] == x && t[0] == y);
    }
}

/// Among the characters of ASCII, the space, the tab and the line breaks are
/// white space, and nothing that shows.
pub proof fn law_ascii_white_space(c: char)
    requires
        (c as int) < 128,
    ensures
        text::is_space(c) <==> c == ' ' || c == '\t' || c == '\n' || c == '\x0b' || c == '\x0c'
            || c == '\r',
{
    assert(c as int == 0x0b ==> c == '\x0b');
    assert(c as int == 0x0c ==> c == '\x0c');
}

/// Digits are read from left to right: one more is worth itself, and makes
/// what came before it worth ten times as much.
pub proof fn law_one_more_digit(s: Seq<char>, d: nat, max: nat)
    requires
        d < 10,
    ensures
        match text::number_up_to(s, max) {
            Some(n) => text::number_up_to(s + text::decimal(d), max) == if 10 * n + d <= max {
                Some((10 * n + d) as nat)
            } else {
                None
            },
            None => true,
        },
{
    law_decimal_is_positional(1, d);
    let c = text::decimal(d)[0];
    let t = s + text::decimal(d);
    assert(text::digit(d) == c);
    let (u, v) = (text::unsigned_part(s), text::unsigned_part(t));
    if text::number_up_to(s, max) is Some {
        assert(v =~= u.push(c));
        assert(v.drop_last() =~= u);
        assert forall|i: int| 0 <= i < v.len() implies text::is_digit(#[trigger] v[i]) by {
            if i < u.len() {
                assert(text::is_digit(u[i]));
            }
        }
    }
}

/// What spells a number is one or more digits, with a `+` before them or
/// not, and the `+` changes nothing.
pub proof fn law_what_spells_a_number(s: Seq<char>, max: nat)
    ensures
        text::number_up_to(Seq::empty(), max) is None,
        text::number_up_to(seq!['+'], max) is None,
        text::number_up_to(s, max) is Some ==> s.len() > 0 && forall|i: int|
            0 <= i < s.len() ==> ('0' as int <= (#[trigger] s[i]) as int <= '9' as int || (i == 0
                && s[0] == '+')),
        s.len() > 0 && s[0] != '+' ==> text::number_up_to(seq!['+'] + s, max)
            == text::number_up_to(s, max),
{
    assert(seq!['+'].drop_first() =~= Seq::<char>::empty());
    if text::number_up_to(s, max) is Some {
        let u = text::unsigned_part(s);
        assert forall|i: int| 0 <= i < s.len() implies ('0' as int <= (#[trigger] s[i]) as int
            <= '9' as int || (i == 0 && s[0] == '+')) by {
            if s[0] == '+' {
                if i > 0 {
                    assert(text::is_digit(u[i - 1]));
                }
            } else {
                assert(text::is_digit(u[i]));
            }
        }
    }
    if s.len() > 0 && s[0] != '+' {
        assert((seq!['+'] + s).drop_first() =~= s);
    }
}

/// The words of a text are words, and between them they hold everything of it
/// but its white space, in order.
pub proof fn law_words_leave_out_white_space(s: Seq<char>)
    ensures
        forall|i: int| 0 <= i < text::words(s).len() ==> is_word(#[trigger] text::words(s)[i]),
        text::joined(text::words(s), Seq::empty()) == s.filter(|c: char| !text::is_space(c)),
    decreases s.len(),
{
    let shows = |c: char| !text::is_space(c);
    let none = Seq::<char>::empty();
    let a = lemma_start(s);
    let t = text::trimmed_start(s);
    assert(s =~= s.take(a) + t);
    Seq::filter_distributes_over_add(s.take(a), t, shows);
    assert(s.take(a).filter(shows) =~= none) by {
        lemma_nothing_shows(s.take(a));
    }
    assert(none + t.filter(shows) =~= t.filter(shows));
    let ws = text::words(s);
    if t.len() == 0 {
        assert(ws =~= Seq::<Seq<char>>::empty());
        assert(t =~= none);
        assert(none.filter(shows) =~= none) by {
            reveal(Seq::filter);
        }
    } else {
        lemma_word_start(t);
        let n = text::word_length(t);
        let (w, rest) = (t.take(n), t.skip(n));
        assert(is_word(w)) by {
            assert(!text::is_space(t[0]));
            assert forall|i: int| 0 <= i < w.len() implies !text::is_space(#[trigger] w[i]) by {
                assert(t[i] == w[i]);
            }
        }
        law_words_leave_out_white_space(rest);
        assert(ws == seq![w] + text::words(rest));
        assert(t =~= w + rest);
        Seq::filter_distributes_over_add(w, rest, shows);
        lemma_all_shows(w);
        assert forall|i: int| 0 <= i < ws.len() implies is_word(#[trigger] ws[i]) by {
            if i > 0 {
                assert(ws[i] == text::words(rest)[i - 1]);
            }
        }
        if ws.len() > 1 {
            lemma_joined_first(ws, none);
            assert(ws.drop_first() =~= text::words(rest));
            assert(w + none =~= w);
        } else {
            assert(text::words(rest) =~= Seq::<Seq<char>>::empty());
            assert(text::joined(text::words(rest), none) =~= none);
            assert(w + none =~= w);
        }
    }
}

/// How far the word a text starts with goes.
proof fn lemma_word_start(t: Seq<char>)
    ensures
        0 <= text::word_length(t) <= t.len(),
        forall|i: int| 0 <= i < text::word_length(t) ==> !text::is_space(#[trigger] t[i]),
        t.len() > 0 && !text::is_space(t[0]) ==> text::word_length(t) > 0,
    decreases t.len(),
{
    if t.len() > 0 && !text::is_space(t[0]) {
        let rest = t.drop_first();
        lemma_word_start(rest);
        assert forall|i: int| 0 <= i < text::word_length(t) implies !text::is_space(
            #[trigger] t[i],
        ) by {
            if i > 0 {
                assert(rest[i - 1] == t[i]);
            }
        }
    }
}

/// White space alone shows nothing.
proof fn lemma_nothing_shows(s: Seq<char>)
    requires
        forall|i: int| 0 <= i < s.len() ==> text::is_space(#[trigger] s[i]),
    ensures
        s.filter(|c: char| !text::is_space(c)).len() == 0,
    decreases s.len(),
{
    reveal(Seq::filter);
    if s.len() > 0 {
        let rest = s.drop_last();
        assert forall|i: int| 0 <= i < rest.len() implies text::is_space(#[trigger] rest[i]) by {
            assert(rest[i] == s[i]);
        }
        lemma_nothing_shows(rest);
        assert(text::is_space(s[s.len() - 1]));
    }
}

/// Without white space everything shows.
proof fn lemma_all_shows(s: Seq<char>)
    requires
        forall|i: int| 0 <= i < s.len() ==> !text::is_space(#[trigger] s[i]),
    ensures
        s.filter(|c: char| !text::is_space(c)) == s,
    decreases s.len(),
{
    reveal(Seq::filter);
    if s.len() > 0 {
        let rest = s.drop_last();
        assert forall|i: int| 0 <= i < rest.len() implies !text::is_space(#[trigger] rest[i]) by {
            assert(rest[i] == s[i]);
        }
        lemma_all_shows(rest);
        assert(!text::is_space(s[s.len() - 1]));
        assert(rest.push(s.last()) =~= s);
    } else {
        assert(s.filter(|c: char| !text::is_space(c)) =~= s);
    }
}

} // verus!
