//! Text as sequences of characters: order, splitting, trimming and numbers.

use vstd::prelude::*;

verus! {

/// Whether `a` comes strictly before `b`, character by character.
///
/// This is the order of `str`: comparing the UTF-8 bytes of two texts and
/// comparing their code points give the same answer.
pub open spec fn text_before(a: Seq<char>, b: Seq<char>) -> bool
    decreases a.len(),
{
    if b.len() == 0 {
        false
    } else if a.len() == 0 {
        true
    } else if a[0] as int != b[0] as int {
        (a[0] as int) < (b[0] as int)
    } else {
        text_before(a.drop_first(), b.drop_first())
    }
}

/// A text never comes before itself.
pub proof fn lemma_text_irreflexive(a: Seq<char>)
    ensures
        !text_before(a, a),
    decreases a.len(),
{
    if a.len() > 0 {
        lemma_text_irreflexive(a.drop_first());
    }
}

/// Coming before is transitive.
pub proof fn lemma_text_transitive(a: Seq<char>, b: Seq<char>, c: Seq<char>)
    requires
        text_before(a, b),
        text_before(b, c),
    ensures
        text_before(a, c),
    decreases a.len(),
{
    if a.len() > 0 && b.len() > 0 && c.len() > 0 && a[0] == b[0] && b[0] == c[0] {
        lemma_text_transitive(a.drop_first(), b.drop_first(), c.drop_first());
    }
}

/// Of two different texts, one comes before the other.
pub proof fn lemma_text_total(a: Seq<char>, b: Seq<char>)
    ensures
        text_before(a, b) || a == b || text_before(b, a),
    decreases a.len(),
{
    if a.len() > 0 && b.len() > 0 && a[0] == b[0] {
        lemma_text_total(a.drop_first(), b.drop_first());
        if a.drop_first() == b.drop_first() {
            assert(a =~= seq![a[0]] + a.drop_first());
            assert(b =~= seq![b[0]] + b.drop_first());
        }
    } else if a.len() == 0 && b.len() == 0 {
        assert(a =~= b);
    }
}

/// The characters of `s`, in order.
pub fn chars_of(s: &str) -> (out: Vec<char>)
    ensures
        out@ == s@,
{
    let mut out: Vec<char> = Vec::new();
    for c in it: s.chars()
        invariant
            it.seq() == s@,
            out@ == s@.take(it.index() as int),
    {
        out.push(c);
    }
    assert(s@.take(s@.len() as int) =~= s@);
    out
}

/// Whether two texts hold the same characters.
pub fn same_text(a: &str, b: &str) -> (same: bool)
    ensures
        same == (a@ == b@),
{
    let x = chars_of(a);
    let y = chars_of(b);
    if x.len() != y.len() {
        return false;
    }
    let mut i: usize = 0;
    while i < x.len()
        invariant
            i <= x.len(),
            x.len() == y.len(),
            x@ == a@,
            y@ == b@,
            forall|k: int| 0 <= k < i ==> x@[k] == y@[k],
        decreases x.len() - i,
    {
        if x[i] != y[i] {
            return false;
        }
        i += 1;
    }
    assert(a@ =~= b@);
    true
}

/// Whether `a` sorts strictly before `b`.
pub fn sorts_before(a: &str, b: &str) -> (before: bool)
    ensures
        before == text_before(a@, b@),
{
    let x = chars_of(a);
    let y = chars_of(b);
    let mut i: usize = 0;
    assert(a@.skip(0) =~= a@);
    assert(b@.skip(0) =~= b@);
    while i < x.len() && i < y.len()
        invariant
            i <= x.len(),
            i <= y.len(),
            x@ == a@,
            y@ == b@,
            text_before(a@, b@) == text_before(a@.skip(i as int), b@.skip(i as int)),
        decreases x.len() - i,
    {
        if x[i] != y[i] {
            return x[i] < y[i];
        }
        assert(a@.skip(i as int).drop_first() =~= a@.skip(i + 1));
        assert(b@.skip(i as int).drop_first() =~= b@.skip(i + 1));
        i += 1;
    }
    i < y.len()
}

/// Whether `c` has the Unicode property White_Space.
pub open spec fn is_space(c: char) -> bool {
    let u = c as int;
    ||| 0x09 <= u <= 0x0d
    ||| u == 0x20
    ||| u == 0x85
    ||| u == 0xa0
    ||| u == 0x1680
    ||| 0x2000 <= u <= 0x200a
    ||| u == 0x2028
    ||| u == 0x2029
    ||| u == 0x202f
    ||| u == 0x205f
    ||| u == 0x3000
}

/// Whether `c` is white space.
pub fn is_white_space(c: char) -> (space: bool)
    ensures
        space == is_space(c),
{
    let u: u32 = c as u32;
    (0x09 <= u && u <= 0x0d) || u == 0x20 || u == 0x85 || u == 0xa0 || u == 0x1680 || (0x2000 <= u
        && u <= 0x200a) || u == 0x2028 || u == 0x2029 || u == 0x202f || u == 0x205f || u == 0x3000
}

/// `s` without the white space it starts with.
pub open spec fn trimmed_start(s: Seq<char>) -> Seq<char>
    decreases s.len(),
{
    if s.len() > 0 && is_space(s[0]) {
        trimmed_start(s.drop_first())
    } else {
        s
    }
}

/// `s` without the white space it ends with.
pub open spec fn trimmed_end(s: Seq<char>) -> Seq<char>
    decreases s.len(),
{
    if s.len() > 0 && is_space(s.last()) {
        trimmed_end(s.drop_last())
    } else {
        s
    }
}

/// `s` without the white space at either end.
pub open spec fn trimmed(s: Seq<char>) -> Seq<char> {
    trimmed_end(trimmed_start(s))
}

/// `s` without the white space it ends with.
pub fn trim_end<'a>(s: &'a str) -> (out: &'a str)
    ensures
        out@ == trimmed_end(s@),
{
    let c = chars_of(s);
    let mut hi: usize = c.len();
    assert(s@.take(hi as int) =~= s@);
    while hi > 0 && is_white_space(c[hi - 1])
        invariant
            c@ == s@,
            hi <= c.len(),
            trimmed_end(s@) == trimmed_end(s@.take(hi as int)),
        decreases hi,
    {
        assert(s@.take(hi as int).drop_last() =~= s@.take(hi - 1));
        hi -= 1;
    }
    assert(hi > 0 ==> s@.take(hi as int).last() == c@[hi - 1]);
    assert(s@.subrange(0, hi as int) =~= s@.take(hi as int));
    s.substring_char(0, hi)
}

/// `s` without the white space at either end.
pub fn trim<'a>(s: &'a str) -> (out: &'a str)
    ensures
        out@ == trimmed(s@),
{
    let c = chars_of(s);
    let mut lo: usize = 0;
    assert(s@.skip(0) =~= s@);
    while lo < c.len() && is_white_space(c[lo])
        invariant
            c@ == s@,
            lo <= c.len(),
            trimmed_start(s@) == trimmed_start(s@.skip(lo as int)),
        decreases c.len() - lo,
    {
        assert(s@.skip(lo as int).drop_first() =~= s@.skip(lo + 1));
        lo += 1;
    }
    assert(lo < c.len() ==> s@.skip(lo as int)[0] == c@[lo as int]);
    assert(s@.subrange(lo as int, c@.len() as int) =~= s@.skip(lo as int));
    trim_end(s.substring_char(lo, c.len()))
}

/// The position of the first `sep` in `s`, or the length of `s`.
pub open spec fn first_index(s: Seq<char>, sep: char) -> int
    decreases s.len(),
{
    if s.len() == 0 || s[0] == sep {
        0
    } else {
        1 + first_index(s.drop_first(), sep)
    }
}

/// What [`first_index`] promises.
pub proof fn lemma_first_index(s: Seq<char>, sep: char)
    ensures
        0 <= first_index(s, sep) <= s.len(),
        first_index(s, sep) < s.len() ==> s[first_index(s, sep)] == sep,
        forall|k: int| 0 <= k < first_index(s, sep) ==> s[k] != sep,
    decreases s.len(),
{
    if s.len() > 0 && s[0] != sep {
        let rest = s.drop_first();
        lemma_first_index(rest, sep);
        assert forall|k: int| 0 <= k < first_index(s, sep) implies s[k] != sep by {
            if k > 0 {
                assert(rest[k - 1] == s[k]);
            }
        }
    }
}

/// A position that is the first with `sep` is [`first_index`].
pub proof fn lemma_first_index_is(s: Seq<char>, sep: char, at: int)
    requires
        0 <= at <= s.len(),
        at < s.len() ==> s[at] == sep,
        forall|k: int| 0 <= k < at ==> s[k] != sep,
    ensures
        first_index(s, sep) == at,
{
    lemma_first_index(s, sep);
    let f = first_index(s, sep);
    if f < at {
        assert(s[f] != sep);
    }
    if at < f {
        assert(s[at] != sep);
    }
}

/// The texts between the separators of `s`: one more than there are
/// separators.
pub open spec fn pieces(s: Seq<char>, sep: char) -> Seq<Seq<char>>
    decreases s.len(),
{
    let k = first_index(s, sep);
    if 0 <= k < s.len() {
        seq![s.take(k)] + pieces(s.skip(k + 1), sep)
    } else {
        seq![s]
    }
}

/// The position of the first `sep` in `c` at or after `from`, or the length
/// of `c`.
pub fn find_from(c: &Vec<char>, sep: char, from: usize) -> (at: usize)
    requires
        from <= c.len(),
    ensures
        from <= at <= c.len(),
        at - from == first_index(c@.skip(from as int), sep),
{
    let mut at: usize = from;
    while at < c.len() && c[at] != sep
        invariant
            from <= at <= c.len(),
            forall|k: int| from <= k < at ==> c@[k] != sep,
        decreases c.len() - at,
    {
        at += 1;
    }
    proof {
        lemma_first_index_is(c@.skip(from as int), sep, at - from);
    }
    at
}

/// The views of a list of texts.
pub open spec fn texts(v: Seq<&str>) -> Seq<Seq<char>> {
    Seq::new(v.len(), |i: int| v[i]@)
}

/// Split `s` at every `sep`.
pub fn split<'a>(s: &'a str, sep: char) -> (out: Vec<&'a str>)
    ensures
        texts(out@) == pieces(s@, sep),
{
    let c = chars_of(s);
    let mut out: Vec<&'a str> = Vec::new();
    let mut from: usize = 0;
    assert(s@.skip(0) =~= s@);
    assert(texts(out@) + pieces(s@, sep) =~= pieces(s@, sep));
    loop
        invariant_except_break
            c@ == s@,
            from <= c.len(),
            texts(out@) + pieces(s@.skip(from as int), sep) == pieces(s@, sep),
        ensures
            texts(out@) == pieces(s@, sep),
        decreases c.len() - from,
    {
        let at = find_from(&c, sep, from);
        let ghost rest = s@.skip(from as int);
        let ghost had = texts(out@);
        out.push(s.substring_char(from, at));
        proof {
            lemma_first_index(rest, sep);
            assert(s@.subrange(from as int, at as int) =~= rest.take(at - from));
            assert(texts(out@) =~= had.push(rest.take(at - from)));
        }
        if at == c.len() {
            assert(rest.take(at - from) =~= rest);
            assert(texts(out@) =~= had + seq![rest]);
            break;
        }
        assert(rest.skip(at - from + 1) =~= s@.skip(at + 1));
        assert(had.push(rest.take(at - from)) + pieces(s@.skip(at + 1), sep) =~= had + (seq![
            rest.take(at - from),
        ] + pieces(s@.skip(at + 1), sep)));
        from = at + 1;
    }
    out
}

/// Whether `c` is one of `0` to `9`.
pub open spec fn is_digit(c: char) -> bool {
    '0' as int <= c as int <= '9' as int
}

/// The number that decimal digits spell.
pub open spec fn digits_value(s: Seq<char>) -> nat
    decreases s.len(),
{
    if s.len() == 0 {
        0
    } else {
        10 * digits_value(s.drop_last()) + (s.last() as int - '0' as int) as nat
    }
}

/// The digits of a number, without the sign it may start with.
pub open spec fn unsigned_part(s: Seq<char>) -> Seq<char> {
    if s.len() > 0 && s[0] == '+' {
        s.drop_first()
    } else {
        s
    }
}

/// Whether `s` is an optional `+` and at least one digit.
pub open spec fn is_number(s: Seq<char>) -> bool {
    let d = unsigned_part(s);
    d.len() > 0 && forall|i: int| 0 <= i < d.len() ==> is_digit(#[trigger] d[i])
}

/// The number `s` spells, where it spells one no greater than `max`.
pub open spec fn number_up_to(s: Seq<char>, max: nat) -> Option<nat> {
    if is_number(s) && digits_value(unsigned_part(s)) <= max {
        Some(digits_value(unsigned_part(s)))
    } else {
        None
    }
}

/// More digits never make a smaller number.
proof fn lemma_digits_grow(s: Seq<char>, k: int)
    requires
        0 <= k <= s.len(),
        forall|i: int| 0 <= i < s.len() ==> is_digit(#[trigger] s[i]),
    ensures
        digits_value(s.take(k)) <= digits_value(s),
    decreases s.len() - k,
{
    if k == s.len() {
        assert(s.take(k) =~= s);
    } else {
        lemma_digits_grow(s, k + 1);
        assert(s.take(k + 1).drop_last() =~= s.take(k));
        assert(is_digit(s[k]));
    }
}

/// The number `s` spells, where it spells one that fits in 64 bits.
pub fn parse_u64(s: &str) -> (n: Option<u64>)
    ensures
        match n {
            Some(v) => number_up_to(s@, u64::MAX as nat) == Some(v as nat),
            None => number_up_to(s@, u64::MAX as nat) is None,
        },
{
    let c = chars_of(s);
    let first: usize = if c.len() > 0 && c[0] == '+' { 1 } else { 0 };
    let ghost d = unsigned_part(s@);
    assert(d =~= s@.skip(first as int));
    if c.len() == first {
        return None;
    }
    let mut i: usize = first;
    let mut bad: bool = false;
    while i < c.len()
        invariant
            first <= i <= c.len(),
            c@ == s@,
            d == s@.skip(first as int),
            bad == !(forall|k: int| 0 <= k < i - first ==> is_digit(#[trigger] d[k])),
        decreases c.len() - i,
    {
        assert(d[i - first] == c@[i as int]);
        if c[i] < '0' || c[i] > '9' {
            bad = true;
        }
        i += 1;
    }
    if bad {
        return None;
    }
    let mut value: u64 = 0;
    i = first;
    assert(d.take(0) =~= Seq::<char>::empty());
    while i < c.len()
        invariant
            first <= i <= c.len(),
            c@ == s@,
            d == s@.skip(first as int),
            d == unsigned_part(s@),
            forall|k: int| 0 <= k < d.len() ==> is_digit(#[trigger] d[k]),
            value == digits_value(d.take(i - first)),
        decreases c.len() - i,
    {
        assert(d[i - first] == c@[i as int]);
        assert(is_digit(d[i - first]));
        let digit: u64 = (c[i] as u32 - '0' as u32) as u64;
        proof {
            lemma_digits_grow(d, i - first + 1);
            assert(d.take(i - first + 1).drop_last() =~= d.take(i - first));
        }
        if value > (u64::MAX - digit) / 10 {
            return None;
        }
        value = value * 10 + digit;
        i += 1;
    }
    assert(d.take(d.len() as int) =~= d);
    Some(value)
}

/// The number `s` spells, where it spells one that fits in a `usize`.
pub fn parse_usize(s: &str) -> (n: Option<usize>)
    ensures
        match n {
            Some(v) => number_up_to(s@, usize::MAX as nat) == Some(v as nat),
            None => number_up_to(s@, usize::MAX as nat) is None,
        },
{
    match parse_u64(s) {
        Some(v) => if v <= usize::MAX as u64 {
            Some(v as usize)
        } else {
            None
        },
        None => None,
    }
}

/// The view of a text that may be missing.
pub open spec fn maybe(s: Option<&str>) -> Option<Seq<char>> {
    match s {
        Some(t) => Some(t@),
        None => None,
    }
}

/// The view of an owned text that may be missing.
pub open spec fn maybe_owned(s: Option<String>) -> Option<Seq<char>> {
    match s {
        Some(t) => Some(t@),
        None => None,
    }
}

/// The views of a list of owned texts.
pub open spec fn strings(v: Seq<String>) -> Seq<Seq<char>> {
    Seq::new(v.len(), |i: int| v[i]@)
}

/// Borrow each of a list of texts.
pub fn borrowed(v: &Vec<String>) -> (out: Vec<&str>)
    ensures
        texts(out@) == strings(v@),
{
    let mut out: Vec<&str> = Vec::new();
    let mut i: usize = 0;
    while i < v.len()
        invariant
            i <= v.len(),
            out@.len() == i,
            forall|k: int| 0 <= k < i ==> (#[trigger] out@[k])@ == v@[k]@,
        decreases v.len() - i,
    {
        out.push(v[i].as_str());
        i += 1;
    }
    assert(texts(out@) =~= strings(v@));
    out
}

/// Copy each of a list of texts.
pub fn owned(v: &Vec<&str>) -> (out: Vec<String>)
    ensures
        strings(out@) == texts(v@),
{
    let mut out: Vec<String> = Vec::new();
    let mut i: usize = 0;
    while i < v.len()
        invariant
            i <= v.len(),
            out@.len() == i,
            forall|k: int| 0 <= k < i ==> (#[trigger] out@[k])@ == v@[k]@,
        decreases v.len() - i,
    {
        out.push(v[i].to_owned());
        i += 1;
    }
    assert(strings(out@) =~= texts(v@));
    out
}

/// The parts one after another, with `sep` between neighbours.
pub open spec fn joined(parts: Seq<Seq<char>>, sep: Seq<char>) -> Seq<char>
    decreases parts.len(),
{
    if parts.len() == 0 {
        Seq::empty()
    } else if parts.len() == 1 {
        parts[0]
    } else {
        joined(parts.drop_last(), sep) + sep + parts.last()
    }
}

/// The parts one after another, with `sep` between neighbours.
pub fn join(parts: &Vec<String>, sep: &str) -> (out: String)
    ensures
        out@ == joined(strings(parts@), sep@),
{
    let mut out = String::new();
    let ghost all = strings(parts@);
    let mut i: usize = 0;
    assert(all.take(0) =~= Seq::<Seq<char>>::empty());
    while i < parts.len()
        invariant
            i <= parts.len(),
            all == strings(parts@),
            out@ == joined(all.take(i as int), sep@),
        decreases parts.len() - i,
    {
        if i > 0 {
            out.append(sep);
        }
        out.append(parts[i].as_str());
        assert(all.take(i + 1).drop_last() =~= all.take(i as int));
        i += 1;
    }
    assert(all.take(i as int) =~= all);
    out
}

/// The digit that stands for `d`, which is below ten.
pub open spec fn digit(d: nat) -> char {
    if d == 0 {
        '0'
    } else if d == 1 {
        '1'
    } else if d == 2 {
        '2'
    } else if d == 3 {
        '3'
    } else if d == 4 {
        '4'
    } else if d == 5 {
        '5'
    } else if d == 6 {
        '6'
    } else if d == 7 {
        '7'
    } else if d == 8 {
        '8'
    } else {
        '9'
    }
}

/// `n` written in decimal, without leading zeros.
pub open spec fn decimal(n: nat) -> Seq<char>
    decreases n,
{
    if n < 10 {
        seq![digit(n)]
    } else {
        decimal(n / 10).push(digit(n % 10))
    }
}

/// The digit that stands for `d`.
fn digit_text(d: u64) -> (out: &'static str)
    requires
        d < 10,
    ensures
        out@ == seq![digit(d as nat)],
{
    proof {
        reveal_strlit("0");
        reveal_strlit("1");
        reveal_strlit("2");
        reveal_strlit("3");
        reveal_strlit("4");
        reveal_strlit("5");
        reveal_strlit("6");
        reveal_strlit("7");
        reveal_strlit("8");
        reveal_strlit("9");
    }
    if d == 0 {
        "0"
    } else if d == 1 {
        "1"
    } else if d == 2 {
        "2"
    } else if d == 3 {
        "3"
    } else if d == 4 {
        "4"
    } else if d == 5 {
        "5"
    } else if d == 6 {
        "6"
    } else if d == 7 {
        "7"
    } else if d == 8 {
        "8"
    } else {
        "9"
    }
}

/// Append `n`, in decimal.
pub fn append_number(out: &mut String, n: u64)
    ensures
        final(out)@ == old(out)@ + decimal(n as nat),
    decreases n,
{
    if n < 10 {
        out.append(digit_text(n));
    } else {
        append_number(out, n / 10);
        let ghost before = out@;
        out.append(digit_text(n % 10));
        assert(out@ =~= old(out)@ + decimal((n / 10) as nat).push(digit((n % 10) as nat)));
    }
}

/// A decimal number is digits, and spells what it was written from.
pub proof fn lemma_decimal(n: nat)
    ensures
        decimal(n).len() > 0,
        forall|i: int| 0 <= i < decimal(n).len() ==> is_digit(#[trigger] decimal(n)[i]),
        digits_value(decimal(n)) == n,
    decreases n,
{
    if n < 10 {
        assert(decimal(n).drop_last() =~= Seq::<char>::empty());
        assert(digits_value(Seq::<char>::empty()) == 0);
    } else {
        lemma_decimal(n / 10);
        assert(decimal(n).drop_last() =~= decimal(n / 10));
    }
}

/// A decimal number reads back.
pub proof fn lemma_decimal_reads_back(n: nat, max: nat)
    requires
        n <= max,
    ensures
        number_up_to(decimal(n), max) == Some(n),
{
    lemma_decimal(n);
    assert(is_digit(decimal(n)[0]));
    assert(unsigned_part(decimal(n)) == decimal(n));
}

/// A text that neither starts nor ends with white space is already trimmed.
pub proof fn lemma_trimmed_already(s: Seq<char>)
    requires
        s.len() > 0,
        !is_space(s[0]),
        !is_space(s.last()),
    ensures
        trimmed(s) == s,
{
}

/// A text without separators is one piece.
pub proof fn lemma_one_piece(s: Seq<char>, sep: char)
    requires
        !s.contains(sep),
    ensures
        pieces(s, sep) == seq![s],
{
    lemma_first_index_is(s, sep, s.len() as int);
}

/// The pieces of two texts with a separator between them.
pub proof fn lemma_pieces_add(a: Seq<char>, sep: char, b: Seq<char>)
    ensures
        pieces(a + seq![sep] + b, sep) == pieces(a, sep) + pieces(b, sep),
    decreases a.len(),
{
    let s = a + seq![sep] + b;
    lemma_first_index(a, sep);
    let k = first_index(a, sep);
    if k < a.len() {
        lemma_first_index_is(s, sep, k);
        assert(s.take(k) =~= a.take(k));
        assert(s.skip(k + 1) =~= a.skip(k + 1) + seq![sep] + b);
        lemma_pieces_add(a.skip(k + 1), sep, b);
        assert(seq![a.take(k)] + (pieces(a.skip(k + 1), sep) + pieces(b, sep)) =~= seq![
            a.take(k),
        ] + pieces(a.skip(k + 1), sep) + pieces(b, sep));
    } else {
        lemma_first_index_is(s, sep, a.len() as int);
        assert(s.take(a.len() as int) =~= a);
        assert(s.skip(a.len() as int + 1) =~= b);
    }
}

/// Joining and then splitting gives the parts back, where no part holds the
/// separator.
pub proof fn lemma_pieces_of_joined(parts: Seq<Seq<char>>, sep: char)
    requires
        parts.len() > 0,
        forall|i: int| 0 <= i < parts.len() ==> !(#[trigger] parts[i]).contains(sep),
    ensures
        pieces(joined(parts, seq![sep]), sep) == parts,
    decreases parts.len(),
{
    if parts.len() == 1 {
        lemma_one_piece(parts[0], sep);
        assert(parts =~= seq![parts[0]]);
    } else {
        let rest = parts.drop_last();
        assert forall|i: int| 0 <= i < rest.len() implies !(#[trigger] rest[i]).contains(sep) by {
            assert(rest[i] == parts[i]);
        }
        lemma_pieces_of_joined(rest, sep);
        assert(!parts[parts.len() - 1].contains(sep));
        lemma_one_piece(parts.last(), sep);
        lemma_pieces_add(joined(rest, seq![sep]), sep, parts.last());
        assert(parts =~= rest + seq![parts.last()]);
    }
}

/// Whether `needle` stands in `s` at position `at`.
pub open spec fn stands_at(s: Seq<char>, needle: Seq<char>, at: int) -> bool {
    0 <= at && at + needle.len() <= s.len() && s.subrange(at, at + needle.len()) == needle
}

/// Whether `needle` is a part of `s`.
pub open spec fn has_part(s: Seq<char>, needle: Seq<char>) -> bool {
    exists|at: int| stands_at(s, needle, at)
}

/// Whether `needle` is a part of `s`.
pub fn contains_text(s: &str, needle: &str) -> (found: bool)
    ensures
        found == has_part(s@, needle@),
{
    let c = chars_of(s);
    let d = chars_of(needle);
    if d.len() > c.len() {
        return false;
    }
    let last: usize = c.len() - d.len();
    let mut at: usize = 0;
    loop
        invariant
            c@ == s@,
            d@ == needle@,
            d.len() <= c.len(),
            last == c.len() - d.len(),
            at <= last,
            forall|k: int| 0 <= k < at ==> !stands_at(s@, needle@, k),
        decreases last - at,
    {
        let mut i: usize = 0;
        while i < d.len() && c[at + i] == d[i]
            invariant
                c@ == s@,
                d@ == needle@,
                d.len() <= c.len(),
                at <= c.len() - d.len(),
                i <= d.len(),
                forall|k: int| 0 <= k < i ==> c@[at + k] == d@[k],
            decreases d.len() - i,
        {
            i += 1;
        }
        if i == d.len() {
            assert(s@.subrange(at as int, at + needle@.len()) =~= needle@);
            assert(stands_at(s@, needle@, at as int));
            return true;
        }
        assert(!stands_at(s@, needle@, at as int)) by {
            assert(s@.subrange(at as int, at + needle@.len() as int)[i as int] == c@[at + i]);
        }
        if at == last {
            return false;
        }
        at += 1;
    }
}

/// The words of `s`: what stands between its white space, without the empty
/// texts.
pub open spec fn words(s: Seq<char>) -> Seq<Seq<char>>
    decreases s.len(),
{
    let t = trimmed_start(s);
    if t.len() == 0 || t.len() > s.len() {
        Seq::empty()
    } else {
        let n = word_length(t);
        if n <= 0 || n > t.len() {
            Seq::empty()
        } else {
            seq![t.take(n)] + words(t.skip(n))
        }
    }
}

/// How many characters of `s` come before its first white space.
pub open spec fn word_length(s: Seq<char>) -> int
    decreases s.len(),
{
    if s.len() == 0 || is_space(s[0]) {
        0
    } else {
        1 + word_length(s.drop_first())
    }
}

/// What [`trimmed_start`] promises.
pub proof fn lemma_trimmed_start(s: Seq<char>)
    ensures
        trimmed_start(s).len() <= s.len(),
        trimmed_start(s).len() > 0 ==> !is_space(trimmed_start(s)[0]),
    decreases s.len(),
{
    if s.len() > 0 && is_space(s[0]) {
        lemma_trimmed_start(s.drop_first());
    }
}

/// Split `s` at its white space.
pub fn split_white_space<'a>(s: &'a str) -> (out: Vec<&'a str>)
    ensures
        texts(out@) == words(s@),
{
    let c = chars_of(s);
    let mut out: Vec<&'a str> = Vec::new();
    let mut from: usize = 0;
    assert(s@.skip(0) =~= s@);
    assert(texts(out@) + words(s@) =~= words(s@));
    loop
        invariant_except_break
            c@ == s@,
            from <= c.len(),
            texts(out@) + words(s@.skip(from as int)) == words(s@),
        ensures
            texts(out@) == words(s@),
        decreases c.len() - from,
    {
        let ghost rest = s@.skip(from as int);
        let mut lo: usize = from;
        while lo < c.len() && is_white_space(c[lo])
            invariant
                c@ == s@,
                from <= lo <= c.len(),
                trimmed_start(rest) == trimmed_start(s@.skip(lo as int)),
            decreases c.len() - lo,
        {
            assert(s@.skip(lo as int).drop_first() =~= s@.skip(lo + 1));
            lo += 1;
        }
        let ghost t = s@.skip(lo as int);
        assert(lo < c.len() ==> t[0] == c@[lo as int]);
        assert(trimmed_start(rest) == t);
        if lo == c.len() {
            assert(texts(out@) + words(rest) =~= texts(out@));
            break;
        }
        let mut hi: usize = lo;
        assert(t.skip(0) =~= t);
        while hi < c.len() && !is_white_space(c[hi])
            invariant
                c@ == s@,
                lo <= hi <= c.len(),
                t == s@.skip(lo as int),
                word_length(t) == hi - lo + word_length(s@.skip(hi as int)),
            decreases c.len() - hi,
        {
            assert(s@.skip(hi as int).drop_first() =~= s@.skip(hi + 1));
            assert(s@.skip(hi as int)[0] == c@[hi as int]);
            hi += 1;
        }
        assert(hi < c.len() ==> s@.skip(hi as int)[0] == c@[hi as int]);
        assert(word_length(t) == hi - lo);
        let ghost had = texts(out@);
        assert(hi > lo) by {
            assert(!is_space(t[0]));
        }
        out.push(s.substring_char(lo, hi));
        proof {
            assert(s@.subrange(lo as int, hi as int) =~= t.take(hi - lo));
            assert(texts(out@) =~= had.push(t.take(hi - lo)));
            assert(t.skip(hi - lo) =~= s@.skip(hi as int));
            assert(words(rest) == seq![t.take(hi - lo)] + words(s@.skip(hi as int)));
            assert(had.push(t.take(hi - lo)) + words(s@.skip(hi as int)) =~= had + (seq![
                t.take(hi - lo),
            ] + words(s@.skip(hi as int))));
        }
        from = hi;
    }
    out
}

} // verus!
