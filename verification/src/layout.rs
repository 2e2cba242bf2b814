//! Lining text up in columns.
//!
//! A column is as wide as its longest entry is in bytes, and an entry is
//! padded by the characters it has. For text in ASCII the two agree.

use crate::text;
use vstd::prelude::*;

verus! {

/// So many spaces.
pub open spec fn spaces(n: nat) -> Seq<char> {
    Seq::new(n, |i: int| ' ')
}

/// How much of a width is left beside a text.
pub open spec fn room(s: Seq<char>, width: nat) -> nat {
    if s.len() < width {
        (width - s.len()) as nat
    } else {
        0
    }
}

/// A text at the left of a column.
pub open spec fn left(s: Seq<char>, width: nat) -> Seq<char> {
    s + spaces(room(s, width))
}

/// A text at the right of a column.
pub open spec fn right(s: Seq<char>, width: nat) -> Seq<char> {
    spaces(room(s, width)) + s
}

/// How many bytes a text takes.
pub open spec fn bytes(s: Seq<char>) -> nat {
    vstd::utf8::encode_utf8(s).len()
}

/// The larger of two widths.
pub open spec fn wider(a: nat, b: nat) -> nat {
    if a < b {
        b
    } else {
        a
    }
}

/// The width of the longest text, in bytes.
pub open spec fn widest(all: Seq<Seq<char>>) -> nat
    decreases all.len(),
{
    if all.len() == 0 {
        0
    } else {
        wider(widest(all.drop_last()), bytes(all.last()))
    }
}

/// How many bytes a text takes.
pub fn byte_length(s: &str) -> (n: usize)
    ensures
        n == bytes(s@),
{
    s.as_bytes().len()
}

/// The width of the longest text, in bytes.
pub fn widest_of(all: &Vec<&str>) -> (width: usize)
    ensures
        width == widest(text::texts(all@)),
{
    let ghost t = text::texts(all@);
    let mut width: usize = 0;
    let mut i: usize = 0;
    assert(t.take(0) =~= Seq::<Seq<char>>::empty());
    while i < all.len()
        invariant
            i <= all.len(),
            t == text::texts(all@),
            width == widest(t.take(i as int)),
        decreases all.len() - i,
    {
        assert(t.take(i + 1).drop_last() =~= t.take(i as int));
        let n: usize = byte_length(all[i]);
        if width < n {
            width = n;
        }
        i += 1;
    }
    assert(t.take(i as int) =~= t);
    width
}

/// No text is wider than the widest.
pub proof fn lemma_widest(all: Seq<Seq<char>>, i: int)
    requires
        0 <= i < all.len(),
    ensures
        bytes(all[i]) <= widest(all),
    decreases all.len(),
{
    if i < all.len() - 1 {
        lemma_widest(all.drop_last(), i);
    }
}

/// Append so many spaces.
pub fn append_spaces(out: &mut String, n: usize)
    ensures
        final(out)@ == old(out)@ + spaces(n as nat),
{
    proof {
        reveal_strlit(" ");
    }
    let ghost start = out@;
    assert(start =~= start + spaces(0));
    let mut i: usize = 0;
    while i < n
        invariant
            i <= n,
            " "@ =~= seq![' '],
            out@ == start + spaces(i as nat),
        decreases n - i,
    {
        out.append(" ");
        assert(start + spaces((i + 1) as nat) =~= start + spaces(i as nat) + seq![' ']);
        i += 1;
    }
}

/// Append a text at the left of a column.
pub fn append_left(out: &mut String, s: &str, width: usize)
    ensures
        final(out)@ == old(out)@ + left(s@, width as nat),
{
    let n: usize = text::chars_of(s).len();
    out.append(s);
    if n < width {
        append_spaces(out, width - n);
    }
    assert(out@ =~= old(out)@ + left(s@, width as nat));
}

/// Append a text at the right of a column.
pub fn append_right(out: &mut String, s: &str, width: usize)
    ensures
        final(out)@ == old(out)@ + right(s@, width as nat),
{
    let n: usize = text::chars_of(s).len();
    if n < width {
        append_spaces(out, width - n);
    }
    out.append(s);
    assert(out@ =~= old(out)@ + right(s@, width as nat));
}

/// Padding adds spaces on one side and nothing else, and as many as it takes
/// to fill the width; a text that is as wide or wider stays as it is.
pub proof fn law_padding(s: Seq<char>, width: nat)
    ensures
        ({
            let full = if s.len() < width {
                width as int
            } else {
                s.len() as int
            };
            let (l, r) = (left(s, width), right(s, width));
            &&& l.len() == full && r.len() == full
            &&& l.take(s.len() as int) == s
            &&& r.skip(full - s.len()) == s
            &&& forall|i: int| s.len() <= i < full ==> #[trigger] l[i] == ' '
            &&& forall|i: int| 0 <= i < full - s.len() ==> #[trigger] r[i] == ' '
        }),
        spaces(width).len() == width,
        forall|i: int| 0 <= i < width ==> #[trigger] spaces(width)[i] == ' ',
        room(s, width) + s.len() >= width,
        room(s, width) == 0 || room(s, width) + s.len() == width,
{
    let full = if s.len() < width {
        width as int
    } else {
        s.len() as int
    };
    assert(left(s, width).take(s.len() as int) =~= s);
    assert(right(s, width).skip(full - s.len()) =~= s);
}

} // verus!
