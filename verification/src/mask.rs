//! Affinity masks: a set of CPUs as the kernel's hexadecimal words.

use crate::text;
use vstd::prelude::*;

verus! {

/// The hexadecimal digit that stands for `d`, which is below sixteen.
pub open spec fn hex_digit(d: nat) -> char {
    if d < 10 {
        text::digit(d)
    } else if d == 10 {
        'a'
    } else if d == 11 {
        'b'
    } else if d == 12 {
        'c'
    } else if d == 13 {
        'd'
    } else if d == 14 {
        'e'
    } else {
        'f'
    }
}

/// What a hexadecimal digit stands for.
pub open spec fn hex_value(c: char) -> nat {
    if '0' as int <= c as int <= '9' as int {
        (c as int - '0' as int) as nat
    } else {
        (c as int - 'a' as int + 10) as nat
    }
}

/// `2` to the power `b` if CPU `4 * n + b` is among `cpus`, else zero.
pub open spec fn mask_part(cpus: Seq<usize>, n: nat, b: nat, weight: nat) -> nat {
    if exists|i: int| 0 <= i < cpus.len() && #[trigger] cpus[i] == 4 * n + b {
        weight
    } else {
        0
    }
}

/// Four bits of a mask: bit `b` says whether CPU `4 * n + b` is in it.
pub open spec fn mask_nibble(cpus: Seq<usize>, n: nat) -> nat {
    mask_part(cpus, n, 0, 1) + mask_part(cpus, n, 1, 2) + mask_part(cpus, n, 2, 4) + mask_part(
        cpus,
        n,
        3,
        8,
    )
}

/// One word of a mask, which covers the 32 CPUs from `32 * k`, as eight
/// hexadecimal digits, the most significant first.
pub open spec fn mask_word(cpus: Seq<usize>, k: nat) -> Seq<char> {
    Seq::new(8, |d: int| hex_digit(mask_nibble(cpus, (8 * k + 7 - d) as nat)))
}

/// Whether `highest` is the greatest of `cpus`, or zero where there are none.
pub open spec fn is_highest(cpus: Seq<usize>, highest: nat) -> bool {
    &&& forall|i: int| 0 <= i < cpus.len() ==> #[trigger] cpus[i] <= highest
    &&& cpus.len() == 0 ==> highest == 0
    &&& cpus.len() > 0 ==> exists|i: int| 0 <= i < cpus.len() && #[trigger] cpus[i] == highest
}

/// The words of a mask of `groups` words, the most significant first.
pub open spec fn mask_words(cpus: Seq<usize>, groups: nat) -> Seq<Seq<char>> {
    Seq::new(groups, |i: int| mask_word(cpus, (groups - 1 - i) as nat))
}

/// A mask of `groups` words, written down.
pub open spec fn mask_text(cpus: Seq<usize>, groups: nat) -> Seq<char> {
    text::joined(mask_words(cpus, groups), seq![','])
}

/// Append the digit that stands for `d`.
fn append_hex_digit(out: &mut String, d: u64)
    requires
        d < 16,
    ensures
        final(out)@ == old(out)@.push(hex_digit(d as nat)),
{
    if d < 10 {
        text::append_number(out, d);
        assert(text::decimal(d as nat) == seq![text::digit(d as nat)]);
        assert(out@ =~= old(out)@.push(hex_digit(d as nat)));
    } else {
        proof {
            reveal_strlit("a");
            reveal_strlit("b");
            reveal_strlit("c");
            reveal_strlit("d");
            reveal_strlit("e");
            reveal_strlit("f");
        }
        if d == 10 {
            out.append("a");
        } else if d == 11 {
            out.append("b");
        } else if d == 12 {
            out.append("c");
        } else if d == 13 {
            out.append("d");
        } else if d == 14 {
            out.append("e");
        } else {
            out.append("f");
        }
        assert(out@ =~= old(out)@.push(hex_digit(d as nat)));
    }
}

/// Whether CPU `c` is among `cpus`.
pub fn holds(cpus: &[usize], c: usize) -> (found: bool)
    ensures
        found == cpus@.contains(c),
        found == exists|i: int| 0 <= i < cpus@.len() && #[trigger] cpus@[i] == c,
{
    let mut i: usize = 0;
    while i < cpus.len()
        invariant
            i <= cpus@.len(),
            forall|k: int| 0 <= k < i ==> #[trigger] cpus@[k] != c,
        decreases cpus@.len() - i,
    {
        if cpus[i] == c {
            return true;
        }
        i += 1;
    }
    false
}

/// `weight` if CPU `4 * n + b` is among `cpus`, else zero.
fn part(cpus: &[usize], n: usize, b: usize, weight: u64) -> (out: u64)
    requires
        4 * n + b <= usize::MAX,
    ensures
        out == mask_part(cpus@, n as nat, b as nat, weight as nat),
{
    if holds(cpus, 4 * n + b) {
        weight
    } else {
        0
    }
}

/// One word of a mask.
fn write_word(cpus: &[usize], k: usize) -> (out: String)
    requires
        32 * k + 31 <= usize::MAX,
    ensures
        out@ == mask_word(cpus@, k as nat),
{
    let mut out = String::new();
    let mut d: usize = 0;
    let ghost whole = mask_word(cpus@, k as nat);
    while d < 8
        invariant
            d <= 8,
            32 * k + 31 <= usize::MAX,
            whole == mask_word(cpus@, k as nat),
            out@ == whole.take(d as int),
        decreases 8 - d,
    {
        let n: usize = 8 * k + (7 - d);
        let nibble: u64 = part(cpus, n, 0, 1) + part(cpus, n, 1, 2) + part(cpus, n, 2, 4) + part(
            cpus,
            n,
            3,
            8,
        );
        assert(nibble == mask_nibble(cpus@, n as nat));
        append_hex_digit(&mut out, nibble);
        assert(whole.take(d + 1) =~= whole.take(d as int).push(whole[d as int]));
        d += 1;
    }
    assert(whole.take(8) =~= whole);
    out
}

/// Hex affinity mask of `cpus`.
///
/// Written as comma-separated 32-bit groups, most significant first, which is
/// the only format the kernel accepts for machines with more than 32 CPUs,
/// and it accepts it for smaller ones too.
pub fn affinity_mask(cpus: &[usize]) -> (out: String)
    ensures
        exists|highest: nat|
            is_highest(cpus@, highest) && out@ == mask_text(cpus@, highest / 32 + 1),
{
    let mut highest: usize = 0;
    let mut i: usize = 0;
    while i < cpus.len()
        invariant
            i <= cpus@.len(),
            forall|k: int| 0 <= k < i ==> #[trigger] cpus@[k] <= highest,
            i == 0 ==> highest == 0,
            i > 0 ==> exists|k: int| 0 <= k < i && #[trigger] cpus@[k] == highest,
        decreases cpus@.len() - i,
    {
        if i == 0 || cpus[i] > highest {
            highest = cpus[i];
            assert(cpus@[i as int] == highest);
        }
        i += 1;
    }
    let ghost groups = (highest / 32 + 1) as nat;
    let ghost all = mask_words(cpus@, groups);
    let mut words: Vec<String> = Vec::new();
    let mut left: usize = highest / 32;
    assert(all.take(0) =~= Seq::<Seq<char>>::empty());
    assert(text::strings(words@) =~= all.take(0));
    loop
        invariant_except_break
            left <= highest / 32,
            groups == highest / 32 + 1,
            all == mask_words(cpus@, groups),
            text::strings(words@) == all.take(groups - 1 - left),
        ensures
            text::strings(words@) == all,
        decreases left,
    {
        let ghost k = groups - 1 - left;
        let ghost had = text::strings(words@);
        assert(32 * left + 31 <= usize::MAX) by {
            assert(usize::MAX == 0xffff_ffff || usize::MAX == 0xffff_ffff_ffff_ffff);
        }
        words.push(write_word(cpus, left));
        assert(text::strings(words@) =~= had.push(all[k]));
        assert(all.take(k + 1) =~= all.take(k).push(all[k]));
        if left == 0 {
            assert(all.take(k + 1) =~= all);
            break;
        }
        left -= 1;
    }
    proof {
        assert(is_highest(cpus@, highest as nat));
        reveal_strlit(",");
        assert(","@ =~= seq![',']);
    }
    text::join(&words, ",")
}

/// Whether a mask of `groups` words, as it is written down, marks CPU `c`.
pub open spec fn text_marks(mask: Seq<char>, groups: nat, c: nat) -> bool {
    let at = 9 * (groups - 1 - c / 32) + 7 - (c % 32) / 4;
    let d = hex_value(mask[at]);
    let b = c % 4;
    if b == 0 {
        d % 2 == 1
    } else if b == 1 {
        (d / 2) % 2 == 1
    } else if b == 2 {
        (d / 4) % 2 == 1
    } else {
        d / 8 == 1
    }
}

/// Where a word stands among words of eight characters with one between.
proof fn lemma_word_at(words: Seq<Seq<char>>, w: int, d: int)
    requires
        forall|i: int| 0 <= i < words.len() ==> (#[trigger] words[i]).len() == 8,
        0 <= w < words.len(),
        0 <= d < 8,
    ensures
        text::joined(words, seq![',']).len() == 9 * words.len() - 1,
        text::joined(words, seq![','])[9 * w + d] == words[w][d],
    decreases words.len(),
{
    if words.len() > 1 {
        let rest = words.drop_last();
        assert forall|i: int| 0 <= i < rest.len() implies (#[trigger] rest[i]).len() == 8 by {
            assert(rest[i] == words[i]);
        }
        if w < rest.len() {
            lemma_word_at(rest, w, d);
            assert(rest[w] == words[w]);
        } else {
            lemma_word_at(rest, 0, 0);
        }
    }
}

/// A mask marks exactly the CPUs it was made from.
pub proof fn law_mask_marks_its_cpus(cpus: Seq<usize>, groups: nat, c: usize)
    requires
        c < 32 * groups,
    ensures
        text_marks(mask_text(cpus, groups), groups, c as nat) <==> cpus.contains(c),
{
    let words = mask_words(cpus, groups);
    let w = groups - 1 - c / 32;
    let d = 7 - (c % 32) / 4;
    let n = (c / 4) as nat;
    let b = (c % 4) as nat;
    lemma_word_at(words, w, d);
    assert(words[w] == mask_word(cpus, (c / 32) as nat));
    assert(8 * (c / 32) + 7 - d == n);
    assert(4 * n + b == c);
    let nibble = mask_nibble(cpus, n);
    assert(words[w][d] == hex_digit(nibble));
    assert(hex_value(hex_digit(nibble)) == nibble);
    if cpus.contains(c) {
        let i = choose|i: int| 0 <= i < cpus.len() && cpus[i] == c;
        assert(cpus[i] == 4 * n + b);
    }
    let (p0, p1, p2, p3) = (
        mask_part(cpus, n, 0, 1),
        mask_part(cpus, n, 1, 2),
        mask_part(cpus, n, 2, 4),
        mask_part(cpus, n, 3, 8),
    );
    assert((p0 == 1) == (nibble % 2 == 1));
    assert((p1 == 2) == ((nibble / 2) % 2 == 1));
    assert((p2 == 4) == ((nibble / 4) % 2 == 1));
    assert((p3 == 8) == (nibble / 8 == 1));
}

/// A mask is written in words of eight hexadecimal digits, the most
/// significant first, with a comma between them; CPU `c` is bit `c % 4` of the
/// digit for it, counted from the right over all words.
pub proof fn law_how_a_mask_is_written(cpus: Seq<usize>, groups: nat, c: usize) -> (v: int)
    requires
        c < 32 * groups,
    ensures
        0 <= v < 16,
        mask_text(cpus, groups).len() == 9 * groups - 1,
        mask_text(cpus, groups)[9 * (groups - 1 - c / 32) + 7 - (c % 32) / 4] == (seq!['0', '1',
            '2', '3', '4', '5', '6', '7', '8', '9', 'a', 'b', 'c', 'd', 'e', 'f'])[v],
        c % 4 == 0 ==> (cpus.contains(c) <==> v % 2 == 1),
        c % 4 == 1 ==> (cpus.contains(c) <==> (v / 2) % 2 == 1),
        c % 4 == 2 ==> (cpus.contains(c) <==> (v / 4) % 2 == 1),
        c % 4 == 3 ==> (cpus.contains(c) <==> (v / 8) % 2 == 1),
        forall|w: int|
            0 <= w < groups - 1 ==> #[trigger] mask_text(cpus, groups)[9 * w + 8] == ',',
{
    law_mask_marks_its_cpus(cpus, groups, c);
    let words = mask_words(cpus, groups);
    let w = groups - 1 - c / 32;
    let d = 7 - (c % 32) / 4;
    let n = (c / 4) as nat;
    lemma_word_at(words, w, d);
    assert(words[w] == mask_word(cpus, (c / 32) as nat));
    assert(8 * (c / 32) + 7 - d == n);
    let v = mask_nibble(cpus, n) as int;
    assert(words[w][d] == hex_digit(v as nat));
    assert(hex_value(hex_digit(v as nat)) == v);
    assert forall|k: int| 0 <= k < groups - 1 implies #[trigger] mask_text(cpus, groups)[9 * k + 8]
        == ',' by {
        lemma_comma_at(words, k);
    }
    v
}

/// Where the commas of a mask are.
proof fn lemma_comma_at(words: Seq<Seq<char>>, k: int)
    requires
        forall|i: int| 0 <= i < words.len() ==> (#[trigger] words[i]).len() == 8,
        0 <= k < words.len() - 1,
    ensures
        text::joined(words, seq![',']).len() == 9 * words.len() - 1,
        text::joined(words, seq![','])[9 * k + 8] == ',',
    decreases words.len(),
{
    let rest = words.drop_last();
    assert forall|i: int| 0 <= i < rest.len() implies (#[trigger] rest[i]).len() == 8 by {
        assert(rest[i] == words[i]);
    }
    assert(words.last().len() == 8);
    lemma_word_at(rest, 0, 0);
    if k < rest.len() - 1 {
        lemma_comma_at(rest, k);
    }
}

/// A mask as wide as the highest of its CPUs asks for has a bit for each of
/// them, and no word more than that takes.
pub proof fn law_a_mask_is_as_wide_as_it_needs_to_be(cpus: Seq<usize>, highest: nat)
    requires
        is_highest(cpus, highest),
    ensures
        forall|c: usize| #[trigger] cpus.contains(c) ==> c < 32 * (highest / 32 + 1),
        cpus.len() > 0 ==> exists|c: usize| #[trigger] cpus.contains(c) && c >= 32 * (highest / 32),
        cpus.len() == 0 ==> highest / 32 + 1 == 1,
{
    assert forall|c: usize| #[trigger] cpus.contains(c) implies c < 32 * (highest / 32 + 1) by {
        let i = choose|i: int| 0 <= i < cpus.len() && cpus[i] == c;
        assert(cpus[i] <= highest);
    }
    if cpus.len() > 0 {
        let i = choose|i: int| 0 <= i < cpus.len() && #[trigger] cpus[i] == highest;
        assert(cpus.contains(cpus[i]));
    }
}

} // verus!
