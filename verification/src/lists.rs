//! Lists of names and named registrations: gathering, sorting and picking.

use crate::order;
use crate::resolve;
use crate::resolve::{Named, NamedView};
use crate::text;
use vstd::prelude::*;

verus! {

/// What `f` makes of each item, one after another.
pub open spec fn gathered<A, B>(s: Seq<A>, f: spec_fn(A) -> Seq<B>) -> Seq<B>
    decreases s.len(),
{
    if s.len() == 0 {
        Seq::empty()
    } else {
        gathered(s.drop_last(), f) + f(s.last())
    }
}

/// Gathering from one item more.
pub proof fn lemma_gathered_step<A, B>(s: Seq<A>, f: spec_fn(A) -> Seq<B>, k: int)
    requires
        0 <= k < s.len(),
    ensures
        gathered(s.take(k + 1), f) == gathered(s.take(k), f) + f(s[k]),
{
    assert(s.take(k + 1).drop_last() =~= s.take(k));
}

/// Filtering one item more.
pub proof fn lemma_filter_step<A>(s: Seq<A>, keep: spec_fn(A) -> bool, k: int)
    requires
        0 <= k < s.len(),
    ensures
        s.take(k + 1).filter(keep) == if keep(s[k]) {
            s.take(k).filter(keep).push(s[k])
        } else {
            s.take(k).filter(keep)
        },
{
    reveal(Seq::filter);
    assert(s.take(k + 1).drop_last() =~= s.take(k));
}

/// Keeping everything changes nothing.
pub proof fn lemma_all_kept(all: Seq<int>, keeps: spec_fn(int) -> bool, n: int)
    requires
        0 <= n <= all.len(),
        forall|p: int| #[trigger] keeps(p),
    ensures
        all.take(n).filter(keeps) == all.take(n),
    decreases n,
{
    reveal(Seq::filter);
    if n > 0 {
        lemma_all_kept(all, keeps, n - 1);
        lemma_filter_step(all, keeps, n - 1);
        assert(all.take(n) =~= all.take(n - 1).push(all[n - 1]));
    } else {
        assert(all.take(0).filter(keeps) =~= all.take(0));
    }
}

/// Filtering and mapping one item more.
pub proof fn lemma_filter_map_step<A, B>(s: Seq<A>, f: spec_fn(A) -> Option<B>, k: int)
    requires
        0 <= k < s.len(),
    ensures
        s.take(k + 1).filter_map(f) == match f(s[k]) {
            Some(b) => s.take(k).filter_map(f).push(b),
            None => s.take(k).filter_map(f),
        },
{
    assert(s.take(k + 1).drop_last() =~= s.take(k));
    match f(s[k]) {
        Some(b) => {
            assert(s.take(k).filter_map(f) + seq![b] =~= s.take(k).filter_map(f).push(b));
        },
        None => {},
    }
}

/// Which items a map that leaves some out keeps.
pub proof fn lemma_filter_map_places<A, B>(s: Seq<A>, f: spec_fn(A) -> Option<B>) -> (at: Seq<int>)
    ensures
        at.len() == s.filter_map(f).len(),
        forall|k: int|
            0 <= k < at.len() ==> 0 <= #[trigger] at[k] < s.len() && f(s[at[k]]) == Some(
                s.filter_map(f)[k],
            ),
        forall|j: int, k: int|
            #![trigger at[j], at[k]]
            0 <= j < k < at.len() ==> at[j] < at[k],
        forall|i: int| 0 <= i < s.len() && (#[trigger] f(s[i])) is Some ==> at.contains(i),
    decreases s.len(),
{
    if s.len() == 0 {
        assert(s.take(0) =~= s);
        reveal(Seq::filter_map);
        let at = Seq::<int>::empty();
        at
    } else {
        let rest = s.drop_last();
        let n = s.len() - 1;
        let before = lemma_filter_map_places(rest, f);
        lemma_filter_map_step(s, f, n);
        assert(s.take(n) =~= rest);
        assert(s.take(n + 1) =~= s);
        let at = if f(s[n]) is Some {
            before.push(n)
        } else {
            before
        };
        assert forall|i: int| 0 <= i < s.len() && (#[trigger] f(s[i])) is Some implies at.contains(
            i,
        ) by {
            if i < n {
                assert(rest[i] == s[i]);
                assert(f(rest[i]) is Some);
                let k = choose|k: int| 0 <= k < before.len() && before[k] == i;
                assert(at[k] == i);
            } else {
                assert(at[at.len() - 1] == n);
            }
        }
        assert forall|k: int| 0 <= k < at.len() implies 0 <= #[trigger] at[k] < s.len() && f(
            s[at[k]],
        ) == Some(s.filter_map(f)[k]) by {
            if k < before.len() {
                assert(at[k] == before[k]);
                assert(rest[before[k]] == s[before[k]]);
            }
        }
        at
    }
}

/// Whether position `i` comes before position `j`: by text, then as they
/// stand.
pub open spec fn text_then_position(all: Seq<Seq<char>>, i: int, j: int) -> bool {
    text::text_before(all[i], all[j]) || (all[i] == all[j] && i < j)
}

/// Sorting by text and then position is a strict total order.
pub proof fn lemma_text_then_position(all: Seq<Seq<char>>)
    ensures
        order::strict_order(
            all.len() as int,
            |i: int, j: int| text_then_position(all, i, j),
        ),
{
    let before = |i: int, j: int| text_then_position(all, i, j);
    let n = all.len() as int;
    assert forall|i: int| 0 <= i < n implies !#[trigger] before(i, i) by {
        text::lemma_text_irreflexive(all[i]);
    }
    assert forall|i: int, j: int, k: int|
        #![trigger before(i, j), before(j, k)]
        0 <= i < n && 0 <= j < n && 0 <= k < n && before(i, j) && before(j, k) implies before(
        i,
        k,
    ) by {
        if text::text_before(all[i], all[j]) && text::text_before(all[j], all[k]) {
            text::lemma_text_transitive(all[i], all[j], all[k]);
        }
    }
    assert forall|i: int, j: int|
        #![trigger before(i, j)]
        0 <= i < n && 0 <= j < n && i != j implies before(i, j) || before(j, i) by {
        text::lemma_text_total(all[i], all[j]);
    }
}

/// Whether the text at `i` occurs elsewhere too.
pub open spec fn repeated(all: Seq<Seq<char>>, i: int) -> bool {
    exists|j: int| 0 <= j < all.len() && j != i && #[trigger] all[j] == all[i]
}

/// Whether the text at `i` does not occur earlier.
pub open spec fn first_of_its_kind(all: Seq<Seq<char>>, i: int) -> bool {
    forall|j: int| 0 <= j < i ==> #[trigger] all[j] != all[i]
}

/// The positions of the different texts in `all`, sorted by text.
pub open spec fn distinct_order(all: Seq<Seq<char>>) -> Seq<int> {
    order::arrangement(
        all.len() as int,
        |i: int| first_of_its_kind(all, i),
        |i: int, j: int| text_then_position(all, i, j),
    )
}

/// The different texts in `all`, sorted.
pub open spec fn distinct_sorted(all: Seq<Seq<char>>) -> Seq<Seq<char>> {
    let order = distinct_order(all);
    Seq::new(order.len(), |k: int| all[order[k]])
}

/// Whether the text at `i` comes before the one at `j`, by text and then
/// position.
fn stands_before(all: &Vec<&str>, i: usize, j: usize) -> (before: bool)
    requires
        i < all.len(),
        j < all.len(),
    ensures
        before == text_then_position(text::texts(all@), i as int, j as int),
{
    text::sorts_before(all[i], all[j]) || (text::same_text(all[i], all[j]) && i < j)
}

/// The positions of the different texts in `all`, sorted by text.
pub fn distinct_positions(all: &Vec<&str>) -> (order: Vec<usize>)
    ensures
        order::ints(order@) == distinct_order(text::texts(all@)),
        forall|a: int| 0 <= a < order@.len() ==> #[trigger] order@[a] < all@.len(),
{
    let ghost t = text::texts(all@);
    let ghost n = all.len() as int;
    let mut first: Vec<bool> = Vec::new();
    let mut i: usize = 0;
    while i < all.len()
        invariant
            i <= all.len(),
            t == text::texts(all@),
            first@.len() == i,
            forall|k: int| 0 <= k < i ==> first@[k] == first_of_its_kind(t, k),
        decreases all.len() - i,
    {
        let mut new: bool = true;
        let mut j: usize = 0;
        while j < i
            invariant
                j <= i < all.len(),
                t == text::texts(all@),
                new == forall|k: int| 0 <= k < j ==> #[trigger] t[k] != t[i as int],
            decreases i - j,
        {
            if text::same_text(all[j], all[i]) {
                assert(t[j as int] == t[i as int]);
                new = false;
            }
            j += 1;
        }
        first.push(new);
        i += 1;
    }
    let ghost keeps = |i: int| first_of_its_kind(t, i);
    let ghost before = |i: int, j: int| text_then_position(t, i, j);
    proof {
        lemma_text_then_position(t);
    }
    let comes_before = |i: usize, j: usize| -> (b: bool)
        requires
            all.len() > i,
            all.len() > j,
        ensures
            b == text_then_position(text::texts(all@), i as int, j as int),
    {
        stands_before(all, i, j)
    };
    let order = order::arrange(&first, comes_before, Ghost(before));
    proof {
        order::lemma_arrangement_same_marks(
            order::ints(order@),
            n,
            |i: int| first@[i],
            keeps,
            before,
        );
    }
    order
}

/// Whether the text at `i` occurs elsewhere too.
pub fn is_repeated(all: &Vec<&str>, i: usize) -> (again: bool)
    requires
        i < all.len(),
    ensures
        again == repeated(text::texts(all@), i as int),
{
    let ghost t = text::texts(all@);
    let mut j: usize = 0;
    while j < all.len()
        invariant
            j <= all.len(),
            i < all.len(),
            t == text::texts(all@),
            forall|k: int| 0 <= k < j && k != i ==> #[trigger] t[k] != t[i as int],
        decreases all.len() - j,
    {
        if j != i && text::same_text(all[j], all[i]) {
            assert(t[j as int] == t[i as int]);
            return true;
        }
        j += 1;
    }
    false
}

/// The different texts in `all`, sorted.
pub fn sort_distinct<'a>(all: &Vec<&'a str>) -> (out: Vec<&'a str>)
    ensures
        text::texts(out@) == distinct_sorted(text::texts(all@)),
{
    let ghost t = text::texts(all@);
    let order = distinct_positions(all);
    let mut out: Vec<&'a str> = Vec::new();
    let mut k: usize = 0;
    while k < order.len()
        invariant
            k <= order.len(),
            t == text::texts(all@),
            order::ints(order@) == distinct_order(t),
            forall|a: int| 0 <= a < order@.len() ==> #[trigger] order@[a] < all@.len(),
            text::texts(out@) == distinct_sorted(t).take(k as int),
        decreases order.len() - k,
    {
        let ghost had = text::texts(out@);
        out.push(all[order[k]]);
        proof {
            assert(order::ints(order@)[k as int] == order@[k as int]);
            assert(text::texts(out@) =~= had.push(distinct_sorted(t)[k as int]));
            assert(distinct_sorted(t).take(k + 1) =~= distinct_sorted(t).take(k as int).push(
                distinct_sorted(t)[k as int],
            ));
        }
        k += 1;
    }
    assert(distinct_sorted(t).take(k as int) =~= distinct_sorted(t));
    out
}

/// The names of a list of registrations.
pub open spec fn names_of<V>(s: Seq<NamedView<V>>) -> Seq<Seq<char>> {
    Seq::new(s.len(), |i: int| s[i].name)
}

/// The items at the positions `order` holds.
pub open spec fn picked<V>(s: Seq<V>, order: Seq<int>) -> Seq<V> {
    Seq::new(order.len(), |k: int| s[order[k]])
}

/// The positions of `names`, sorted by text, those alike as they stand.
pub open spec fn name_order(names: Seq<Seq<char>>) -> Seq<int> {
    order::arrangement(
        names.len() as int,
        |i: int| true,
        |i: int, j: int| text_then_position(names, i, j),
    )
}

/// `s` sorted by name, those of one name as they stand.
pub open spec fn sorted_by_name<V>(s: Seq<NamedView<V>>) -> Seq<NamedView<V>> {
    picked(s, name_order(names_of(s)))
}

/// Sorting keeps every item.
pub proof fn lemma_sorted_keeps_length<V>(s: Seq<NamedView<V>>)
    ensures
        sorted_by_name(s).len() == s.len(),
{
    lemma_text_then_position(names_of(s));
    order::lemma_arrangement_len(
        s.len() as int,
        |i: int, j: int| text_then_position(names_of(s), i, j),
    );
}

/// Whether position `i` comes before position `j`: those called `baseline`
/// first, then by name, then as they stand.
pub open spec fn baseline_then_name(
    names: Seq<Seq<char>>,
    baseline: Seq<char>,
    i: int,
    j: int,
) -> bool {
    if (names[i] == baseline) != (names[j] == baseline) {
        names[i] == baseline
    } else {
        text_then_position(names, i, j)
    }
}

/// `s` with what is called `baseline` first, and the rest sorted by name.
pub open spec fn baseline_first<V>(s: Seq<NamedView<V>>, baseline: Seq<char>) -> Seq<
    NamedView<V>,
> {
    picked(
        s,
        order::arrangement(
            s.len() as int,
            |i: int| true,
            |i: int, j: int| baseline_then_name(names_of(s), baseline, i, j),
        ),
    )
}

/// Putting the baseline first is a strict total order.
pub proof fn lemma_baseline_then_name(names: Seq<Seq<char>>, baseline: Seq<char>)
    ensures
        order::strict_order(
            names.len() as int,
            |i: int, j: int| baseline_then_name(names, baseline, i, j),
        ),
{
    let before = |i: int, j: int| baseline_then_name(names, baseline, i, j);
    let plain = |i: int, j: int| text_then_position(names, i, j);
    let n = names.len() as int;
    lemma_text_then_position(names);
    assert forall|i: int| 0 <= i < n implies !#[trigger] before(i, i) by {
        assert(!plain(i, i));
    }
    assert forall|i: int, j: int, k: int|
        #![trigger before(i, j), before(j, k)]
        0 <= i < n && 0 <= j < n && 0 <= k < n && before(i, j) && before(j, k) implies before(
        i,
        k,
    ) by {
        if plain(i, j) && plain(j, k) {
            assert(plain(i, k));
        }
    }
    assert forall|i: int, j: int|
        #![trigger before(i, j)]
        0 <= i < n && 0 <= j < n && i != j implies before(i, j) || before(j, i) by {
        assert(plain(i, j) || plain(j, i));
    }
}

/// A list of `n` marks, all set.
pub fn all_marked(n: usize) -> (marks: Vec<bool>)
    ensures
        marks@.len() == n,
        forall|i: int| 0 <= i < n ==> marks@[i],
{
    let mut marks: Vec<bool> = Vec::new();
    let mut i: usize = 0;
    while i < n
        invariant
            i <= n,
            marks@.len() == i,
            forall|k: int| 0 <= k < i ==> marks@[k],
        decreases n - i,
    {
        marks.push(true);
        i += 1;
    }
    marks
}

/// A copy of one named registration.
pub fn copy_named<T: View>(n: &Named<T>) -> (out: Named<T>)
    ensures
        out@ == n@,
{
    Named { name: n.name.clone(), reg: n.reg, origin: n.origin }
}

/// The items of `v` at the positions `order` holds.
pub fn pick<T: View>(v: &Vec<Named<T>>, order: &Vec<usize>) -> (out: Vec<Named<T>>)
    requires
        forall|a: int| 0 <= a < order@.len() ==> #[trigger] order@[a] < v@.len(),
    ensures
        resolve::named_views(out@) == picked(resolve::named_views(v@), order::ints(order@)),
{
    let ghost all = picked(resolve::named_views(v@), order::ints(order@));
    let mut out: Vec<Named<T>> = Vec::new();
    let mut k: usize = 0;
    while k < order.len()
        invariant
            k <= order.len(),
            all == picked(resolve::named_views(v@), order::ints(order@)),
            forall|a: int| 0 <= a < order@.len() ==> #[trigger] order@[a] < v@.len(),
            resolve::named_views(out@) == all.take(k as int),
        decreases order.len() - k,
    {
        let ghost had = resolve::named_views(out@);
        out.push(copy_named(&v[order[k]]));
        proof {
            assert(order::ints(order@)[k as int] == order@[k as int]);
            assert(resolve::named_views(out@) =~= had.push(all[k as int]));
            assert(all.take(k + 1) =~= all.take(k as int).push(all[k as int]));
        }
        k += 1;
    }
    assert(all.take(k as int) =~= all);
    out
}

/// The names of a list, borrowed.
pub fn borrow_names<'a, T: View>(v: &'a Vec<Named<T>>) -> (names: Vec<&'a str>)
    ensures
        text::texts(names@) == names_of(resolve::named_views(v@)),
{
    let mut names: Vec<&'a str> = Vec::new();
    let ghost all = names_of(resolve::named_views(v@));
    let mut i: usize = 0;
    while i < v.len()
        invariant
            i <= v.len(),
            all == names_of(resolve::named_views(v@)),
            text::texts(names@) == all.take(i as int),
        decreases v.len() - i,
    {
        let ghost had = text::texts(names@);
        names.push(v[i].name.as_str());
        proof {
            assert(text::texts(names@) =~= had.push(all[i as int]));
            assert(all.take(i + 1) =~= all.take(i as int).push(all[i as int]));
        }
        i += 1;
    }
    assert(all.take(i as int) =~= all);
    names
}

/// Sort by name, leaving those of one name as they stand.
pub fn sort_by_name<T: View>(v: &Vec<Named<T>>) -> (out: Vec<Named<T>>)
    ensures
        resolve::named_views(out@) == sorted_by_name(resolve::named_views(v@)),
{
    let names = borrow_names(v);
    let marks = all_marked(v.len());
    let ghost t = text::texts(names@);
    let ghost before = |i: int, j: int| text_then_position(t, i, j);
    proof {
        lemma_text_then_position(t);
        assert(t.len() == v.len());
    }
    let comes_before = |i: usize, j: usize| -> (b: bool)
        requires
            names.len() > i,
            names.len() > j,
        ensures
            b == text_then_position(text::texts(names@), i as int, j as int),
    {
        stands_before(&names, i, j)
    };
    let order = order::arrange(&marks, comes_before, Ghost(before));
    proof {
        order::lemma_arrangement_same_marks(
            order::ints(order@),
            v.len() as int,
            |i: int| marks@[i],
            |i: int| true,
            before,
        );
    }
    pick(v, &order)
}

/// Put what is called `baseline` first, and sort the rest by name.
pub fn put_baseline_first<T: View>(v: &Vec<Named<T>>, baseline: &str) -> (out: Vec<Named<T>>)
    ensures
        resolve::named_views(out@) == baseline_first(resolve::named_views(v@), baseline@),
{
    let names = borrow_names(v);
    let marks = all_marked(v.len());
    let ghost t = text::texts(names@);
    let ghost before = |i: int, j: int| baseline_then_name(t, baseline@, i, j);
    proof {
        lemma_baseline_then_name(t, baseline@);
        assert(t.len() == v.len());
    }
    let comes_before = |i: usize, j: usize| -> (b: bool)
        requires
            names.len() > i,
            names.len() > j,
        ensures
            b == baseline_then_name(text::texts(names@), baseline@, i as int, j as int),
    {
        let first = text::same_text(names[i], baseline);
        if first != text::same_text(names[j], baseline) {
            first
        } else {
            stands_before(&names, i, j)
        }
    };
    let order = order::arrange(&marks, comes_before, Ghost(before));
    proof {
        order::lemma_arrangement_same_marks(
            order::ints(order@),
            v.len() as int,
            |i: int| marks@[i],
            |i: int| true,
            before,
        );
    }
    pick(v, &order)
}

} // verus!
