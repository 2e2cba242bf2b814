//! Where a registration came from, and how crate versions order.

use crate::text;
use vstd::prelude::*;

verus! {

/// A crate version, ordered the way versions actually order.
///
/// It holds what a leading `major.minor.patch` spells. Anything after that, a
/// `-rc.1` or a `+build`, does not take part in the order.
///
/// Comparing the strings instead would put `0.10.0` before `0.9.0`, which is
/// backwards, and nothing would look wrong.
#[derive(Debug, Clone, Copy, PartialEq, Eq, PartialOrd, Ord)]
pub struct Version {
    major: u64,
    minor: u64,
    patch: u64,
}

/// The part of a version before its pre-release or build suffix.
pub open spec fn version_core(s: Seq<char>) -> Seq<char> {
    let dash = text::first_index(s, '-');
    let plus = text::first_index(s, '+');
    s.take(if dash < plus {
        dash
    } else {
        plus
    })
}

/// The number at dotted position `i` of a version: zero where there is none,
/// or where it is not a number.
pub open spec fn version_part(s: Seq<char>, i: int) -> nat {
    let parts = text::pieces(version_core(s), '.');
    if 0 <= i < parts.len() {
        match text::number_up_to(text::trimmed(parts[i]), u64::MAX as nat) {
            Some(n) => n,
            None => 0,
        }
    } else {
        0
    }
}

/// The three numbers of a version.
pub open spec fn version_of(s: Seq<char>) -> (nat, nat, nat) {
    (version_part(s, 0), version_part(s, 1), version_part(s, 2))
}

/// Whether one version is older than another: by its major number, then its
/// minor number, then its patch number.
pub open spec fn older(a: (nat, nat, nat), b: (nat, nat, nat)) -> bool {
    ||| a.0 < b.0
    ||| a.0 == b.0 && a.1 < b.1
    ||| a.0 == b.0 && a.1 == b.1 && a.2 < b.2
}

impl View for Version {
    type V = (nat, nat, nat);

    closed spec fn view(&self) -> (nat, nat, nat) {
        (self.major as nat, self.minor as nat, self.patch as nat)
    }
}

/// The number at position `i` of `parts`, zero where there is none.
fn part_or_zero(parts: &Vec<&str>, i: usize) -> (n: u64)
    ensures
        n == if i < parts.len() {
            match text::number_up_to(text::trimmed(text::texts(parts@)[i as int]), u64::MAX as nat) {
                Some(n) => n,
                None => 0,
            }
        } else {
            0
        },
{
    if i < parts.len() {
        match text::parse_u64(text::trim(parts[i])) {
            Some(n) => n,
            None => 0,
        }
    } else {
        0
    }
}

impl Version {
    /// Parse `major.minor.patch`, treating anything unparseable as zero.
    ///
    /// A version that does not parse should not stop a benchmark run: the
    /// worst it can do is order oddly against its siblings.
    pub fn parse(s: &str) -> (version: Version)
        ensures
            version@ == version_of(s@),
    {
        let c = text::chars_of(s);
        let mut at: usize = 0;
        while at < c.len() && c[at] != '-' && c[at] != '+'
            invariant
                c@ == s@,
                at <= c.len(),
                forall|k: int| 0 <= k < at ==> c@[k] != '-' && c@[k] != '+',
            decreases c.len() - at,
        {
            at += 1;
        }
        proof {
            text::lemma_first_index(s@, '-');
            text::lemma_first_index(s@, '+');
            if at < c.len() && c@[at as int] == '-' {
                text::lemma_first_index_is(s@, '-', at as int);
            } else {
                text::lemma_first_index_is(s@, '+', at as int);
            }
            assert(s@.subrange(0, at as int) =~= version_core(s@));
        }
        let parts = text::split(s.substring_char(0, at), '.');
        Version {
            major: part_or_zero(&parts, 0),
            minor: part_or_zero(&parts, 1),
            patch: part_or_zero(&parts, 2),
        }
    }

    /// Whether this version is older than `other`.
    pub fn is_older_than(&self, other: &Version) -> (is_older: bool)
        ensures
            is_older == older(self@, other@),
    {
        self.major < other.major || (self.major == other.major && self.minor < other.minor) || (
        self.major == other.major && self.minor == other.minor && self.patch < other.patch)
    }
}

/// Where one registration came from.
#[derive(Debug, Clone, Copy, PartialEq, Eq)]
pub struct Origin {
    pub crate_name: &'static str,
    pub crate_version: &'static str,
}

/// The values of an [`Origin`].
#[verifier::ext_equal]
pub struct OriginView {
    pub crate_name: Seq<char>,
    pub crate_version: Seq<char>,
}

impl OriginView {
    /// The numbers of the version this came from.
    pub open spec fn numbers(self) -> (nat, nat, nat) {
        version_of(self.crate_version)
    }
}

impl View for Origin {
    type V = OriginView;

    open spec fn view(&self) -> OriginView {
        OriginView { crate_name: self.crate_name@, crate_version: self.crate_version@ }
    }
}

impl Origin {
    /// The version this came from, parsed.
    pub fn version(&self) -> (version: Version)
        ensures
            version@ == self@.numbers(),
    {
        Version::parse(self.crate_version)
    }
}

/// Versions order like numbers: no version is older than itself, being older
/// is transitive, and of two versions with different numbers one is older.
pub proof fn law_versions_are_totally_ordered(
    a: (nat, nat, nat),
    b: (nat, nat, nat),
    c: (nat, nat, nat),
)
    ensures
        !older(a, a),
        older(a, b) && older(b, c) ==> older(a, c),
        older(a, b) || a == b || older(b, a),
{
}

/// A pre-release or build suffix plays no part: two versions that agree up to
/// their first `-` or `+` have the same numbers.
pub proof fn law_suffixes_do_not_order(core: Seq<char>, mark: char, suffix: Seq<char>)
    requires
        mark == '-' || mark == '+',
        forall|k: int| 0 <= k < core.len() ==> core[k] != '-' && core[k] != '+',
    ensures
        version_of(core + seq![mark] + suffix) == version_of(core),
{
    let s = core + seq![mark] + suffix;
    let n = core.len() as int;
    text::lemma_first_index(s, '-');
    text::lemma_first_index(s, '+');
    text::lemma_first_index(core, '-');
    text::lemma_first_index(core, '+');
    assert(s[n] == mark);
    assert(forall|k: int| 0 <= k < n ==> s[k] == core[k]);
    text::lemma_first_index_is(s, mark, n);
    assert(version_core(s) =~= core);
    assert(version_core(core) =~= core);
}

/// The major number decides first, then the minor number, then the patch
/// number: a lower major number makes a version older whatever follows it, a
/// lower minor number whatever the patch numbers are, and nothing else does.
pub proof fn law_the_leading_number_decides(a: (nat, nat, nat), b: (nat, nat, nat))
    ensures
        a.0 < b.0 ==> older(a, b) && !older(b, a),
        a.0 == b.0 && a.1 < b.1 ==> older(a, b) && !older(b, a),
        a.0 == b.0 && a.1 == b.1 ==> (older(a, b) <==> a.2 < b.2),
        forall|major: nat, m: nat, n: nat, p: nat, q: nat|
            m < n ==> #[trigger] older((major, m, p), (major, n, q)) && !older(
                (major, n, q),
                (major, m, p),
            ),
{
}

/// A number written in decimal holds none of the marks a version is cut at,
/// and reads back as itself.
proof fn lemma_decimal_stands(n: nat)
    requires
        n <= u64::MAX,
    ensures
        !text::decimal(n).contains('.'),
        !text::decimal(n).contains('-'),
        !text::decimal(n).contains('+'),
        text::number_up_to(text::trimmed(text::decimal(n)), u64::MAX as nat) == Some(n),
{
    let d = text::decimal(n);
    text::lemma_decimal(n);
    text::lemma_decimal_reads_back(n, u64::MAX as nat);
    assert(text::is_digit(d[0]));
    assert(text::is_digit(d[d.len() - 1]));
    text::lemma_trimmed_already(d);
    assert forall|c: char| !text::is_digit(c) implies !#[trigger] d.contains(c) by {
        if d.contains(c) {
            let i = choose|i: int| 0 <= i < d.len() && d[i] == c;
            assert(text::is_digit(d[i]));
        }
    }
}

/// A text without a suffix is all core.
proof fn lemma_core_of_plain(s: Seq<char>)
    requires
        !s.contains('-'),
        !s.contains('+'),
    ensures
        version_core(s) == s,
{
    text::lemma_first_index_is(s, '-', s.len() as int);
    text::lemma_first_index_is(s, '+', s.len() as int);
    assert(version_core(s) =~= s);
}

/// The numbers of a version are read from left to right, and one that is not
/// there counts as zero.
pub proof fn law_version_numbers_are_read_in_order(major: nat, minor: nat, patch: nat)
    requires
        major <= u64::MAX,
        minor <= u64::MAX,
        patch <= u64::MAX,
    ensures
        version_of(text::decimal(major)) == (major, 0nat, 0nat),
        version_of(text::decimal(major) + seq!['.'] + text::decimal(minor)) == (major, minor, 0nat),
        version_of(
            text::decimal(major) + seq!['.'] + text::decimal(minor) + seq!['.'] + text::decimal(
                patch,
            ),
        ) == (major, minor, patch),
{
    let (a, b, c) = (text::decimal(major), text::decimal(minor), text::decimal(patch));
    let two = a + seq!['.'] + b;
    let three = two + seq!['.'] + c;
    lemma_decimal_stands(major);
    lemma_decimal_stands(minor);
    lemma_decimal_stands(patch);
    text::lemma_one_piece(a, '.');
    text::lemma_one_piece(b, '.');
    text::lemma_one_piece(c, '.');
    text::lemma_pieces_add(a, '.', b);
    text::lemma_pieces_add(two, '.', c);
    lemma_core_of_plain(a);
    lemma_core_of_plain(two);
    lemma_core_of_plain(three);
    assert(text::pieces(two, '.') =~= seq![a, b]);
    assert(text::pieces(three, '.') =~= seq![a, b, c]);
}

/// A version whose text spells a lower minor number is older, whatever patch
/// numbers follow: `0.8.5` is older than `0.9.0`, and `0.9.0` than `0.10.0`.
pub proof fn law_a_lower_minor_number_is_older(major: nat, m: nat, n: nat, p: nat, q: nat)
    requires
        major <= u64::MAX,
        m < n <= u64::MAX,
        p <= u64::MAX,
        q <= u64::MAX,
    ensures
        older(
            version_of(
                text::decimal(major) + seq!['.'] + text::decimal(m) + seq!['.'] + text::decimal(p),
            ),
            version_of(
                text::decimal(major) + seq!['.'] + text::decimal(n) + seq!['.'] + text::decimal(q),
            ),
        ),
{
    law_version_numbers_are_read_in_order(major, m, p);
    law_version_numbers_are_read_in_order(major, n, q);
}

/// What one dotted part of a version counts for: the number it spells, or zero
/// where it spells none that fits in 64 bits.
pub open spec fn counts_for(part: Seq<char>) -> nat {
    match text::number_up_to(text::trimmed(part), u64::MAX as nat) {
        Some(n) => n,
        None => 0,
    }
}

/// Each dotted part counts in its own place, one that is no number as zero, and
/// what follows the third plays no part.
pub proof fn law_parts_count_in_their_places(
    a: Seq<char>,
    b: Seq<char>,
    c: Seq<char>,
    rest: Seq<char>,
)
    requires
        forall|i: int| 0 <= i < a.len() ==> #[trigger] a[i] != '.' && a[i] != '-' && a[i] != '+',
        forall|i: int| 0 <= i < b.len() ==> #[trigger] b[i] != '.' && b[i] != '-' && b[i] != '+',
        forall|i: int| 0 <= i < c.len() ==> #[trigger] c[i] != '.' && c[i] != '-' && c[i] != '+',
        forall|i: int| 0 <= i < rest.len() ==> #[trigger] rest[i] != '-' && rest[i] != '+',
    ensures
        version_of(a + seq!['.'] + b + seq!['.'] + c) == (
            counts_for(a),
            counts_for(b),
            counts_for(c),
        ),
        version_of(a + seq!['.'] + b + seq!['.'] + c + seq!['.'] + rest) == (
            counts_for(a),
            counts_for(b),
            counts_for(c),
        ),
{
    let two = a + seq!['.'] + b;
    let three = two + seq!['.'] + c;
    let more = three + seq!['.'] + rest;
    text::lemma_one_piece(a, '.');
    text::lemma_one_piece(b, '.');
    text::lemma_one_piece(c, '.');
    text::lemma_pieces_add(a, '.', b);
    text::lemma_pieces_add(two, '.', c);
    text::lemma_pieces_add(three, '.', rest);
    lemma_core_of_plain(three);
    lemma_core_of_plain(more);
    assert(text::pieces(three, '.') =~= seq![a, b, c]);
    assert(text::pieces(more, '.') =~= seq![a, b, c] + text::pieces(rest, '.'));
}

} // verus!
