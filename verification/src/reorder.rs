//! Lists that hold the same items in a different order.

use crate::lists;
use vstd::prelude::*;

verus! {

/// Whether two lists hold the same items, each as often.
pub open spec fn reordered<A>(a: Seq<A>, b: Seq<A>) -> bool {
    a.to_multiset() == b.to_multiset()
}

/// Whether `pi` holds each position below `n` exactly once.
pub open spec fn is_permutation(pi: Seq<int>, n: int) -> bool {
    &&& pi.len() == n
    &&& forall|k: int| 0 <= k < n ==> 0 <= #[trigger] pi[k] < n
    &&& forall|j: int, k: int|
        #![trigger pi[j], pi[k]]
        0 <= j < n && 0 <= k < n && j != k ==> pi[j] != pi[k]
    &&& forall|i: int| 0 <= i < n ==> #[trigger] pi.contains(i)
}

/// Lists that hold the same items are as long and hold the same items.
pub proof fn lemma_reordered_contains<A>(a: Seq<A>, b: Seq<A>)
    requires
        reordered(a, b),
    ensures
        a.len() == b.len(),
        forall|x: A| a.contains(x) <==> b.contains(x),
{
    broadcast use vstd::seq_lib::group_to_multiset_ensures;

    assert(a.len() == a.to_multiset().len());
    assert(b.len() == b.to_multiset().len());
    assert forall|x: A| a.contains(x) <==> b.contains(x) by {
        assert(a.contains(x) <==> a.to_multiset().count(x) > 0);
        assert(b.contains(x) <==> b.to_multiset().count(x) > 0);
    }
}

/// Taking one item out of both leaves lists that hold the same items.
proof fn lemma_take_one_out<A>(a: Seq<A>, b: Seq<A>) -> (i: int)
    requires
        reordered(a, b),
        b.len() > 0,
    ensures
        0 <= i < a.len(),
        a[i] == b.last(),
        reordered(a.remove(i), b.drop_last()),
{
    broadcast use vstd::seq_lib::group_to_multiset_ensures;

    lemma_reordered_contains(a, b);
    assert(b.contains(b.last()));
    let i = choose|i: int| 0 <= i < a.len() && a[i] == b.last();
    assert(b.drop_last() =~= b.remove(b.len() - 1));
    i
}

/// Lists that hold the same items differ by a permutation.
pub proof fn lemma_to_permutation<A>(a: Seq<A>, b: Seq<A>) -> (pi: Seq<int>)
    requires
        reordered(a, b),
    ensures
        is_permutation(pi, a.len() as int),
        b == lists::picked(a, pi),
    decreases a.len(),
{
    lemma_reordered_contains(a, b);
    let n = a.len() as int;
    if n == 0 {
        let pi = Seq::<int>::empty();
        assert(b =~= lists::picked(a, pi));
        pi
    } else {
        let i = lemma_take_one_out(a, b);
        let shorter = a.remove(i);
        let sigma = lemma_to_permutation(shorter, b.drop_last());
        let shift = |p: int|
            if p < i {
                p
            } else {
                p + 1
            };
        let pi = Seq::new(
            n as nat,
            |k: int|
                if k < n - 1 {
                    shift(sigma[k])
                } else {
                    i
                },
        );
        assert forall|p: int| 0 <= p < n implies #[trigger] pi.contains(p) by {
            if p == i {
                assert(pi[n - 1] == p);
            } else {
                let q = if p < i { p } else { p - 1 };
                assert(sigma.contains(q));
                let k = choose|k: int| 0 <= k < sigma.len() && sigma[k] == q;
                assert(pi[k] == p);
            }
        }
        assert forall|j: int, k: int|
            #![trigger pi[j], pi[k]]
            0 <= j < n && 0 <= k < n && j != k implies pi[j] != pi[k] by {
            if j < n - 1 && k < n - 1 {
                assert(sigma[j] != sigma[k]);
            }
        }
        assert forall|k: int| 0 <= k < n implies b[k] == a[#[trigger] pi[k]] by {
            if k < n - 1 {
                assert(b.drop_last()[k] == shorter[sigma[k]]);
            }
        }
        assert(b =~= lists::picked(a, pi));
        pi
    }
}

/// Gathering from two lists one after the other.
pub proof fn lemma_gathered_add<A, B>(s: Seq<A>, t: Seq<A>, f: spec_fn(A) -> Seq<B>)
    ensures
        lists::gathered(s + t, f) == lists::gathered(s, f) + lists::gathered(t, f),
    decreases t.len(),
{
    if t.len() == 0 {
        assert(s + t =~= s);
        assert(lists::gathered(s, f) + lists::gathered(t, f) =~= lists::gathered(s, f));
    } else {
        lemma_gathered_add(s, t.drop_last(), f);
        assert((s + t).drop_last() =~= s + t.drop_last());
        assert(lists::gathered(s, f) + (lists::gathered(t.drop_last(), f) + f(t.last()))
            =~= lists::gathered(s, f) + lists::gathered(t.drop_last(), f) + f(t.last()));
    }
}

/// Gathering from lists that hold the same items gathers the same.
pub proof fn lemma_gathered_reordered<A, B>(a: Seq<A>, b: Seq<A>, f: spec_fn(A) -> Seq<B>)
    requires
        reordered(a, b),
    ensures
        reordered(lists::gathered(a, f), lists::gathered(b, f)),
    decreases a.len(),
{
    lemma_reordered_contains(a, b);
    if a.len() > 0 {
        let i = lemma_take_one_out(a, b);
        lemma_gathered_reordered(a.remove(i), b.drop_last(), f);
        let head = a.take(i);
        let tail = a.skip(i + 1);
        assert(a =~= head + (seq![a[i]] + tail));
        assert(a.remove(i) =~= head + tail);
        lemma_gathered_add(head, seq![a[i]] + tail, f);
        lemma_gathered_add(seq![a[i]], tail, f);
        lemma_gathered_add(head, tail, f);
        let (gh, gt, gx) = (lists::gathered(head, f), lists::gathered(tail, f), f(a[i]));
        assert(seq![a[i]].drop_last() =~= Seq::<A>::empty());
        assert(lists::gathered(Seq::<A>::empty(), f) =~= Seq::<B>::empty());
        assert(seq![a[i]].last() == a[i]);
        assert(lists::gathered(seq![a[i]], f) =~= gx);
        vstd::seq_lib::lemma_multiset_commutative(gh, gx + gt);
        vstd::seq_lib::lemma_multiset_commutative(gx, gt);
        vstd::seq_lib::lemma_multiset_commutative(gh, gt);
        vstd::seq_lib::lemma_multiset_commutative(lists::gathered(b.drop_last(), f), gx);
        assert(lists::gathered(a, f).to_multiset() =~= lists::gathered(b, f).to_multiset());
    } else {
        assert(a =~= b);
    }
}

/// Gathering the same of each item gathers the same.
pub proof fn lemma_gathered_same<A, B>(
    s: Seq<A>,
    f: spec_fn(A) -> Seq<B>,
    g: spec_fn(A) -> Seq<B>,
)
    requires
        forall|i: int| 0 <= i < s.len() ==> f(#[trigger] s[i]) == g(s[i]),
    ensures
        lists::gathered(s, f) == lists::gathered(s, g),
    decreases s.len(),
{
    if s.len() > 0 {
        assert forall|i: int| 0 <= i < s.drop_last().len() implies f(#[trigger] s.drop_last()[i])
            == g(s.drop_last()[i]) by {
            assert(s.drop_last()[i] == s[i]);
        }
        lemma_gathered_same(s.drop_last(), f, g);
    }
}

/// What is gathered is what `f` makes of some item.
pub proof fn lemma_gathered_contains<A, B>(s: Seq<A>, f: spec_fn(A) -> Seq<B>)
    ensures
        forall|i: int, x: B|
            0 <= i < s.len() && #[trigger] f(s[i]).contains(x) ==> lists::gathered(s, f).contains(x),
        forall|x: B| #[trigger]
            lists::gathered(s, f).contains(x) ==> exists|i: int|
                0 <= i < s.len() && #[trigger] f(s[i]).contains(x),
    decreases s.len(),
{
    if s.len() > 0 {
        let rest = s.drop_last();
        let (head, tail) = (lists::gathered(rest, f), f(s.last()));
        lemma_gathered_contains(rest, f);
        assert forall|i: int, x: B|
            0 <= i < s.len() && #[trigger] f(s[i]).contains(x) implies lists::gathered(
            s,
            f,
        ).contains(x) by {
            if i < s.len() - 1 {
                assert(rest[i] == s[i]);
                assert(head.contains(x));
                let k = choose|k: int| 0 <= k < head.len() && head[k] == x;
                assert((head + tail)[k] == x);
            } else {
                let k = choose|k: int| 0 <= k < tail.len() && tail[k] == x;
                assert((head + tail)[head.len() + k] == x);
            }
        }
        assert forall|x: B| #[trigger] lists::gathered(s, f).contains(x) implies exists|i: int|
            0 <= i < s.len() && #[trigger] f(s[i]).contains(x) by {
            let k = choose|k: int| 0 <= k < (head + tail).len() && (head + tail)[k] == x;
            if k < head.len() {
                assert(head[k] == x);
                assert(head.contains(x));
                let i = choose|i: int| 0 <= i < rest.len() && #[trigger] f(rest[i]).contains(x);
                assert(f(s[i]).contains(x));
            } else {
                assert(tail[k - head.len()] == x);
                assert(f(s[s.len() - 1]).contains(x));
            }
        }
    }
}

/// What filtering keeps stands in the order it had.
pub proof fn lemma_filter_positions<A>(s: Seq<A>, keep: spec_fn(A) -> bool) -> (at: Seq<int>)
    ensures
        at.len() == s.filter(keep).len(),
        forall|k: int|
            0 <= k < at.len() ==> 0 <= #[trigger] at[k] < s.len() && s.filter(keep)[k] == s[at[k]]
                && keep(s[at[k]]),
        forall|j: int, k: int|
            #![trigger at[j], at[k]]
            0 <= j < k < at.len() ==> at[j] < at[k],
        forall|i: int| 0 <= i < s.len() && keep(#[trigger] s[i]) ==> at.contains(i),
    decreases s.len(),
{
    reveal(Seq::filter);
    if s.len() == 0 {
        Seq::empty()
    } else {
        let rest = s.drop_last();
        let before = lemma_filter_positions(rest, keep);
        if keep(s.last()) {
            let at = before.push(s.len() - 1);
            assert forall|i: int| 0 <= i < s.len() && keep(#[trigger] s[i]) implies at.contains(
                i,
            ) by {
                if i < s.len() - 1 {
                    assert(keep(rest[i]));
                    assert(before.contains(i));
                    let k = choose|k: int| 0 <= k < before.len() && before[k] == i;
                    assert(at[k] == i);
                } else {
                    assert(at[before.len() as int] == i);
                }
            }
            assert forall|k: int| 0 <= k < at.len() implies 0 <= #[trigger] at[k] < s.len()
                && s.filter(keep)[k] == s[at[k]] && keep(s[at[k]]) by {
                if k < before.len() {
                    assert(rest.filter(keep)[k] == rest[before[k]]);
                }
            }
            at
        } else {
            assert forall|i: int| 0 <= i < s.len() && keep(#[trigger] s[i]) implies before.contains(
                i,
            ) by {
                assert(i < s.len() - 1);
                assert(keep(rest[i]));
            }
            assert forall|k: int| 0 <= k < before.len() implies s.filter(keep)[k]
                == s[#[trigger] before[k]] && keep(s[before[k]]) by {
                assert(rest.filter(keep)[k] == rest[before[k]]);
            }
            before
        }
    }
}

/// Filtering keeps what it should and nothing else.
pub proof fn lemma_filter_contains<A>(s: Seq<A>, keep: spec_fn(A) -> bool)
    ensures
        forall|x: A| s.filter(keep).contains(x) <==> s.contains(x) && keep(x),
{
    let at = lemma_filter_positions(s, keep);
    assert forall|x: A| s.filter(keep).contains(x) <==> s.contains(x) && keep(x) by {
        if s.filter(keep).contains(x) {
            let k = choose|k: int| 0 <= k < s.filter(keep).len() && s.filter(keep)[k] == x;
            assert(s[at[k]] == x);
        }
        if s.contains(x) && keep(x) {
            let i = choose|i: int| 0 <= i < s.len() && s[i] == x;
            assert(keep(s[i]));
            assert(at.contains(i));
            let k = choose|k: int| 0 <= k < at.len() && at[k] == i;
            assert(s.filter(keep)[k] == x);
        }
    }
}

/// What filtering and mapping keeps.
pub proof fn lemma_filter_map_contains<A, B>(s: Seq<A>, f: spec_fn(A) -> Option<B>)
    ensures
        forall|i: int| 0 <= i < s.len() && (#[trigger] f(s[i])) is Some ==> s.filter_map(
            f,
        ).contains(f(s[i])->0),
        forall|x: B| #[trigger]
            s.filter_map(f).contains(x) ==> exists|i: int|
                0 <= i < s.len() && #[trigger] f(s[i]) == Some(x),
    decreases s.len(),
{
    if s.len() > 0 {
        let rest = s.drop_last();
        lemma_filter_map_contains(rest, f);
        let kept = rest.filter_map(f);
        assert forall|i: int| 0 <= i < s.len() && (#[trigger] f(s[i])) is Some implies s.filter_map(
            f,
        ).contains(f(s[i])->0) by {
            let x = f(s[i])->0;
            if i < s.len() - 1 {
                assert(rest[i] == s[i]);
                assert(kept.contains(x));
                let k = choose|k: int| 0 <= k < kept.len() && kept[k] == x;
                assert(s.filter_map(f)[k] == x);
            } else {
                assert(s.filter_map(f)[kept.len() as int] == x);
            }
        }
        assert forall|x: B| #[trigger] s.filter_map(f).contains(x) implies exists|i: int|
            0 <= i < s.len() && #[trigger] f(s[i]) == Some(x) by {
            let k = choose|k: int| 0 <= k < s.filter_map(f).len() && s.filter_map(f)[k] == x;
            if k < kept.len() {
                assert(kept[k] == x);
                assert(kept.contains(x));
                let i = choose|i: int| 0 <= i < rest.len() && #[trigger] f(rest[i]) == Some(x);
                assert(f(s[i]) == Some(x));
            } else {
                assert(f(s[s.len() - 1]) == Some(x));
            }
        }
    }
}

/// Filtering and mapping the same of each item gives the same.
pub proof fn lemma_filter_map_same<A, B>(
    s: Seq<A>,
    f: spec_fn(A) -> Option<B>,
    g: spec_fn(A) -> Option<B>,
)
    requires
        forall|i: int| 0 <= i < s.len() ==> f(#[trigger] s[i]) == g(s[i]),
    ensures
        s.filter_map(f) == s.filter_map(g),
    decreases s.len(),
{
    if s.len() > 0 {
        assert forall|i: int| 0 <= i < s.drop_last().len() implies f(#[trigger] s.drop_last()[i])
            == g(s.drop_last()[i]) by {
            assert(s.drop_last()[i] == s[i]);
        }
        lemma_filter_map_same(s.drop_last(), f, g);
    }
}

/// Whether each item of `s` is strictly less than those after it.
pub open spec fn strictly_sorted<A>(s: Seq<A>, less: spec_fn(A, A) -> bool) -> bool {
    forall|i: int, j: int|
        #![trigger s[i], s[j]]
        0 <= i < j < s.len() ==> less(s[i], s[j])
}

/// Whether `less` never holds both ways round.
pub open spec fn one_way<A>(less: spec_fn(A, A) -> bool) -> bool {
    forall|x: A, y: A| #[trigger] less(x, y) ==> !less(y, x)
}

/// Strictly sorted lists that hold the same items are the same.
pub proof fn lemma_strictly_sorted_unique<A>(a: Seq<A>, b: Seq<A>, less: spec_fn(A, A) -> bool)
    requires
        strictly_sorted(a, less),
        strictly_sorted(b, less),
        one_way(less),
        forall|x: A| a.contains(x) <==> b.contains(x),
    ensures
        a == b,
    decreases a.len(),
{
    if a.len() == 0 {
        if b.len() > 0 {
            assert(b.contains(b[0]));
        }
        assert(a =~= b);
    } else {
        assert(a.contains(a.last()));
        assert(b.contains(a.last()));
        assert(b.contains(b.last()));
        assert(a.contains(b.last()));
        let i = choose|i: int| 0 <= i < b.len() && b[i] == a.last();
        let j = choose|j: int| 0 <= j < a.len() && a[j] == b.last();
        if i < b.len() - 1 && j < a.len() - 1 {
            assert(less(b[i], b[b.len() - 1]));
            assert(less(a[j], a[a.len() - 1]));
        }
        assert(a.last() == b.last());
        let (a1, b1) = (a.drop_last(), b.drop_last());
        assert forall|x: A| a1.contains(x) <==> b1.contains(x) by {
            if a1.contains(x) {
                let k = choose|k: int| 0 <= k < a1.len() && a1[k] == x;
                assert(a[k] == x);
                assert(less(a[k], a[a.len() - 1]));
                assert(a.contains(x));
                let m = choose|m: int| 0 <= m < b.len() && b[m] == x;
                assert(m < b.len() - 1);
                assert(b1[m] == x);
            }
            if b1.contains(x) {
                let k = choose|k: int| 0 <= k < b1.len() && b1[k] == x;
                assert(b[k] == x);
                assert(less(b[k], b[b.len() - 1]));
                assert(b.contains(x));
                let m = choose|m: int| 0 <= m < a.len() && a[m] == x;
                assert(m < a.len() - 1);
                assert(a1[m] == x);
            }
        }
        lemma_strictly_sorted_unique(a1, b1, less);
        assert(a =~= a1.push(a.last()));
        assert(b =~= b1.push(b.last()));
    }
}

/// What is gathered from parts that are strictly sorted, each before the
/// next, is strictly sorted.
pub proof fn lemma_gathered_sorted<A, B>(
    s: Seq<A>,
    f: spec_fn(A) -> Seq<B>,
    less: spec_fn(B, B) -> bool,
)
    requires
        forall|i: int| 0 <= i < s.len() ==> strictly_sorted(f(#[trigger] s[i]), less),
        forall|i: int, j: int, x: B, y: B|
            0 <= i < j < s.len() && #[trigger] f(s[i]).contains(x) && #[trigger] f(s[j]).contains(y)
                ==> less(x, y),
    ensures
        strictly_sorted(lists::gathered(s, f), less),
    decreases s.len(),
{
    if s.len() > 0 {
        let rest = s.drop_last();
        let n = s.len() - 1;
        assert forall|i: int| 0 <= i < rest.len() implies strictly_sorted(
            f(#[trigger] rest[i]),
            less,
        ) by {
            assert(strictly_sorted(f(s[i]), less));
        }
        assert forall|i: int, j: int, x: B, y: B|
            0 <= i < j < rest.len() && #[trigger] f(rest[i]).contains(x) && #[trigger] f(
                rest[j],
            ).contains(y) implies less(x, y) by {
            assert(f(s[i]).contains(x));
            assert(f(s[j]).contains(y));
        }
        lemma_gathered_sorted(rest, f, less);
        lemma_gathered_contains(rest, f);
        let (head, tail) = (lists::gathered(rest, f), f(s.last()));
        let all = head + tail;
        assert(strictly_sorted(f(s[n]), less));
        assert forall|a: int, b: int|
            #![trigger all[a], all[b]]
            0 <= a < b < all.len() implies less(all[a], all[b]) by {
            if b < head.len() {
                assert(less(head[a], head[b]));
            } else if a >= head.len() {
                assert(less(tail[a - head.len()], tail[b - head.len()]));
            } else {
                let (x, y) = (head[a], tail[b - head.len()]);
                assert(head.contains(x));
                let i = choose|i: int| 0 <= i < rest.len() && #[trigger] f(rest[i]).contains(x);
                assert(f(s[i]).contains(x));
                assert(tail.contains(y));
                assert(f(s[n]).contains(y));
            }
        }
    }
}

/// What filtering and mapping keeps of a strictly sorted list is strictly
/// sorted, where mapping keeps the order.
pub proof fn lemma_filter_map_sorted<A, B>(
    s: Seq<A>,
    f: spec_fn(A) -> Option<B>,
    from: spec_fn(A, A) -> bool,
    to: spec_fn(B, B) -> bool,
)
    requires
        strictly_sorted(s, from),
        forall|x: A, y: A|
            #![trigger f(x), f(y)]
            from(x, y) && f(x) is Some && f(y) is Some ==> to(f(x)->0, f(y)->0),
    ensures
        strictly_sorted(s.filter_map(f), to),
    decreases s.len(),
{
    if s.len() > 0 {
        let rest = s.drop_last();
        assert(strictly_sorted(rest, from)) by {
            assert forall|i: int, j: int|
                #![trigger rest[i], rest[j]]
                0 <= i < j < rest.len() implies from(rest[i], rest[j]) by {
                assert(from(s[i], s[j]));
            }
        }
        lemma_filter_map_sorted(rest, f, from, to);
        lemma_filter_map_contains(rest, f);
        let kept = rest.filter_map(f);
        let all = s.filter_map(f);
        assert forall|a: int, b: int|
            #![trigger all[a], all[b]]
            0 <= a < b < all.len() implies to(all[a], all[b]) by {
            if b < kept.len() {
                assert(to(kept[a], kept[b]));
            } else {
                assert(kept.contains(kept[a]));
                let i = choose|i: int|
                    0 <= i < rest.len() && #[trigger] f(rest[i]) == Some(kept[a]);
                assert(from(s[i], s[s.len() - 1]));
                assert(f(s[s.len() - 1]) == Some(all[b]));
            }
        }
    }
}

} // verus!
