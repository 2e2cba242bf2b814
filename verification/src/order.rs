//! Picking items out of a list and putting them in order.
//!
//! An order is described by what comes before what, and an arrangement by the
//! positions of the items it holds. Positions are all different, so an
//! arrangement under a strict total order is the only one there is.

use vstd::prelude::*;

verus! {

/// Whether `before` is a strict total order of the positions below `n`.
pub open spec fn strict_order(n: int, before: spec_fn(int, int) -> bool) -> bool {
    &&& forall|i: int| 0 <= i < n ==> !#[trigger] before(i, i)
    &&& forall|i: int, j: int, k: int|
        #![trigger before(i, j), before(j, k)]
        0 <= i < n && 0 <= j < n && 0 <= k < n && before(i, j) && before(j, k) ==> before(i, k)
    &&& forall|i: int, j: int|
        #![trigger before(i, j)]
        0 <= i < n && 0 <= j < n && i != j ==> before(i, j) || before(j, i)
}

/// Whether `order` holds exactly the positions below `n` that `keep` keeps,
/// each before the ones that come after it.
pub open spec fn is_arrangement(
    order: Seq<int>,
    n: int,
    keep: spec_fn(int) -> bool,
    before: spec_fn(int, int) -> bool,
) -> bool {
    &&& forall|a: int, b: int|
        #![trigger order[a], order[b]]
        0 <= a < b < order.len() ==> before(order[a], order[b])
    &&& forall|a: int|
        #![trigger order[a]]
        0 <= a < order.len() ==> 0 <= order[a] < n && keep(order[a])
    &&& forall|i: int| 0 <= i < n && #[trigger] keep(i) ==> order.contains(i)
}

/// The positions below `n` that `keep` keeps, in the order `before`.
pub open spec fn arrangement(
    n: int,
    keep: spec_fn(int) -> bool,
    before: spec_fn(int, int) -> bool,
) -> Seq<int> {
    choose|order: Seq<int>| is_arrangement(order, n, keep, before)
}

/// Two arrangements of the same positions agree up to any length they share.
proof fn lemma_arrangements_agree(
    a: Seq<int>,
    b: Seq<int>,
    n: int,
    keep: spec_fn(int) -> bool,
    before: spec_fn(int, int) -> bool,
    k: int,
)
    requires
        strict_order(n, before),
        is_arrangement(a, n, keep, before),
        is_arrangement(b, n, keep, before),
        0 <= k <= a.len(),
    ensures
        k <= b.len(),
        forall|i: int| 0 <= i < k ==> a[i] == b[i],
    decreases k,
{
    if k > 0 {
        lemma_arrangements_agree(a, b, n, keep, before, k - 1);
        let x = a[k - 1];
        assert(keep(x));
        assert(b.contains(x));
        let p = choose|p: int| 0 <= p < b.len() && b[p] == x;
        if p < k - 1 {
            assert(a[p] == b[p]);
            assert(before(a[p], a[k - 1]));
        }
        let y = b[k - 1];
        if p > k - 1 {
            assert(before(b[k - 1], b[p]));
            assert(keep(y));
            assert(a.contains(y));
            let q = choose|q: int| 0 <= q < a.len() && a[q] == y;
            if q < k - 1 {
                assert(a[q] == b[q]);
                assert(before(b[q], b[k - 1]));
            } else if q == k - 1 {
                assert(x == y);
            } else {
                assert(before(a[k - 1], a[q]));
                assert(before(x, y) && before(y, x));
                assert(before(x, x));
            }
        }
    }
}

/// An arrangement under a strict total order is the only one.
pub proof fn lemma_arrangement_unique(
    order: Seq<int>,
    n: int,
    keep: spec_fn(int) -> bool,
    before: spec_fn(int, int) -> bool,
)
    requires
        strict_order(n, before),
        is_arrangement(order, n, keep, before),
    ensures
        arrangement(n, keep, before) == order,
{
    let a = arrangement(n, keep, before);
    assert(is_arrangement(a, n, keep, before));
    lemma_arrangements_agree(a, order, n, keep, before, a.len() as int);
    lemma_arrangements_agree(order, a, n, keep, before, order.len() as int);
    assert(a =~= order);
}

/// An arrangement under one way of saying what is kept is the arrangement
/// under every way of saying the same.
pub proof fn lemma_arrangement_same_marks(
    order: Seq<int>,
    n: int,
    marks: spec_fn(int) -> bool,
    keep: spec_fn(int) -> bool,
    before: spec_fn(int, int) -> bool,
)
    requires
        strict_order(n, before),
        is_arrangement(order, n, marks, before),
        forall|i: int| 0 <= i < n ==> #[trigger] marks(i) == keep(i),
    ensures
        is_arrangement(order, n, keep, before),
        arrangement(n, keep, before) == order,
        forall|a: int| 0 <= a < order.len() ==> 0 <= #[trigger] order[a] < n && keep(order[a]),
{
    assert forall|i: int| 0 <= i < n && #[trigger] keep(i) implies order.contains(i) by {
        assert(marks(i));
    }
    assert forall|a: int| 0 <= a < order.len() implies keep(#[trigger] order[a]) by {
        assert(marks(order[a]));
    }
    lemma_arrangement_unique(order, n, keep, before);
}

/// Putting one more position in order.
proof fn lemma_insert_into_arrangement(
    order: Seq<int>,
    n: int,
    m: int,
    keep: spec_fn(int) -> bool,
    before: spec_fn(int, int) -> bool,
    at: int,
) -> (longer: Seq<int>)
    requires
        strict_order(n, before),
        0 <= m < n,
        is_arrangement(order, m, keep, before),
        0 <= at <= order.len(),
        forall|a: int| 0 <= a < at ==> before(#[trigger] order[a], m),
        forall|a: int| at <= a < order.len() ==> before(m, #[trigger] order[a]),
        keep(m),
    ensures
        is_arrangement(longer, m + 1, keep, before),
        longer.len() == order.len() + 1,
{
    let longer = order.insert(at, m);
    assert(longer[at] == m);
    assert forall|a: int, b: int|
        #![trigger longer[a], longer[b]]
        0 <= a < b < longer.len() implies before(longer[a], longer[b]) by {
        let pa = if a < at { a } else { a - 1 };
        let pb = if b < at { b } else { b - 1 };
        if a != at {
            assert(longer[a] == order[pa]);
        }
        if b != at {
            assert(longer[b] == order[pb]);
        }
    }
    assert forall|a: int|
        #![trigger longer[a]]
        0 <= a < longer.len() implies 0 <= longer[a] < m + 1 && keep(longer[a]) by {
        let pa = if a < at { a } else { a - 1 };
        if a != at {
            assert(longer[a] == order[pa]);
        }
    }
    assert forall|i: int| 0 <= i < m + 1 && #[trigger] keep(i) implies longer.contains(i) by {
        if i < m {
            assert(order.contains(i));
            let p = choose|p: int| 0 <= p < order.len() && order[p] == i;
            if p < at {
                assert(longer[p] == i);
            } else {
                assert(longer[p + 1] == i);
            }
        }
    }
    longer
}

/// Where position `m` goes among those arranged so far.
proof fn lemma_insertion_point(
    order: Seq<int>,
    n: int,
    m: int,
    keep: spec_fn(int) -> bool,
    before: spec_fn(int, int) -> bool,
    at: int,
) -> (found: int)
    requires
        strict_order(n, before),
        0 <= m < n,
        is_arrangement(order, m, keep, before),
        0 <= at <= order.len(),
        forall|a: int| at <= a < order.len() ==> before(m, #[trigger] order[a]),
    ensures
        0 <= found <= order.len(),
        forall|a: int| 0 <= a < found ==> before(#[trigger] order[a], m),
        forall|a: int| found <= a < order.len() ==> before(m, #[trigger] order[a]),
    decreases at,
{
    if at == 0 || before(order[at - 1], m) {
        assert forall|a: int| 0 <= a < at implies before(#[trigger] order[a], m) by {
            if a < at - 1 {
                assert(before(order[a], order[at - 1]));
            }
        }
        at
    } else {
        assert(before(m, order[at - 1]));
        lemma_insertion_point(order, n, m, keep, before, at - 1)
    }
}

/// There is an arrangement of the positions below any `m`, and it has as many
/// as are kept.
pub proof fn lemma_arrangement_exists(
    n: int,
    m: int,
    keep: spec_fn(int) -> bool,
    before: spec_fn(int, int) -> bool,
) -> (order: Seq<int>)
    requires
        strict_order(n, before),
        0 <= m <= n,
    ensures
        is_arrangement(order, m, keep, before),
        (forall|i: int| 0 <= i < m ==> #[trigger] keep(i)) ==> order.len() == m,
    decreases m,
{
    if m == 0 {
        Seq::empty()
    } else {
        let shorter = lemma_arrangement_exists(n, m - 1, keep, before);
        if keep(m - 1) {
            let at = lemma_insertion_point(
                shorter,
                n,
                m - 1,
                keep,
                before,
                shorter.len() as int,
            );
            lemma_insert_into_arrangement(shorter, n, m - 1, keep, before, at)
        } else {
            assert forall|i: int| 0 <= i < m && #[trigger] keep(i) implies shorter.contains(i) by {
                assert(i < m - 1);
            }
            shorter
        }
    }
}

/// An arrangement under a strict total order holds what it should.
pub proof fn lemma_arrangement(
    n: int,
    keep: spec_fn(int) -> bool,
    before: spec_fn(int, int) -> bool,
)
    requires
        strict_order(n, before),
        0 <= n,
    ensures
        is_arrangement(arrangement(n, keep, before), n, keep, before),
{
    let order = lemma_arrangement_exists(n, n, keep, before);
    lemma_arrangement_unique(order, n, keep, before);
}

/// Arranging everything keeps everything.
pub proof fn lemma_arrangement_len(n: int, before: spec_fn(int, int) -> bool)
    requires
        strict_order(n, before),
        0 <= n,
    ensures
        arrangement(n, |i: int| true, before).len() == n,
{
    let keep = |i: int| true;
    let order = lemma_arrangement_exists(n, n, keep, before);
    lemma_arrangement_unique(order, n, keep, before);
}

/// The positions in `v`, as integers.
pub open spec fn ints(v: Seq<usize>) -> Seq<int> {
    Seq::new(v.len(), |i: int| v[i] as int)
}

/// Put the positions that `keep` marks in order, by insertion: each goes
/// behind everything it does not come before.
pub fn arrange<F: Fn(usize, usize) -> bool>(
    keep: &Vec<bool>,
    comes_before: F,
    Ghost(before): Ghost<spec_fn(int, int) -> bool>,
) -> (order: Vec<usize>)
    requires
        strict_order(keep.len() as int, before),
        forall|i: usize, j: usize|
            #![trigger comes_before.requires((i, j))]
            i < keep.len() && j < keep.len() ==> comes_before.requires((i, j)),
        forall|i: usize, j: usize, r: bool| #[trigger]
            comes_before.ensures((i, j), r) ==> r == before(i as int, j as int),
    ensures
        is_arrangement(ints(order@), keep.len() as int, |i: int| keep@[i], before),
        ints(order@) == arrangement(keep.len() as int, |i: int| keep@[i], before),
        forall|a: int| 0 <= a < order@.len() ==> #[trigger] order@[a] < keep.len(),
{
    let mut order: Vec<usize> = Vec::new();
    let mut next: usize = 0;
    let ghost n = keep.len() as int;
    while next < keep.len()
        invariant
            n == keep.len(),
            next <= keep.len(),
            strict_order(n, before),
            forall|i: usize, j: usize|
                #![trigger comes_before.requires((i, j))]
                i < keep.len() && j < keep.len() ==> comes_before.requires((i, j)),
            forall|i: usize, j: usize, r: bool| #[trigger]
                comes_before.ensures((i, j), r) ==> r == before(i as int, j as int),
            forall|a: int, b: int|
                #![trigger order@[a], order@[b]]
                0 <= a < b < order.len() ==> before(order@[a] as int, order@[b] as int),
            forall|a: int|
                #![trigger order@[a]]
                0 <= a < order.len() ==> order@[a] < next && keep@[order@[a] as int],
            forall|i: usize| i < next && #[trigger] keep@[i as int] ==> order@.contains(i),
        decreases keep.len() - next,
    {
        if keep[next] {
            let mut at: usize = order.len();
            while at > 0 && comes_before(next, order[at - 1])
                invariant
                    n == keep.len(),
                    next < keep.len(),
                    at <= order.len(),
                    strict_order(n, before),
                    forall|i: usize, j: usize|
                        #![trigger comes_before.requires((i, j))]
                        i < keep.len() && j < keep.len() ==> comes_before.requires((i, j)),
                    forall|i: usize, j: usize, r: bool| #[trigger]
                        comes_before.ensures((i, j), r) ==> r == before(i as int, j as int),
                    forall|a: int|
                        #![trigger order@[a]]
                        0 <= a < order.len() ==> order@[a] < next,
                    forall|b: int|
                        at <= b < order.len() ==> before(next as int, #[trigger] order@[b] as int),
                decreases at,
            {
                at -= 1;
            }
            let ghost had = order@;
            proof {
                assert forall|a: int| 0 <= a < at implies before(
                    #[trigger] had[a] as int,
                    next as int,
                ) by {
                    assert(!before(next as int, had[at - 1] as int));
                    assert(before(had[at - 1] as int, next as int));
                    if a < at - 1 {
                        assert(before(had[a] as int, had[at - 1] as int));
                    }
                }
            }
            order.insert(at, next);
            proof {
                assert(order@[at as int] == next);
                assert forall|i: usize| i < next + 1 && #[trigger] keep@[i as int] implies
                    order@.contains(i) by {
                    if i < next {
                        assert(had.contains(i));
                        let p = choose|p: int| 0 <= p < had.len() && had[p] == i;
                        if p < at {
                            assert(order@[p] == i);
                        } else {
                            assert(order@[p + 1] == i);
                        }
                    }
                }
                assert forall|a: int, b: int|
                    #![trigger order@[a], order@[b]]
                    0 <= a < b < order.len() implies before(
                    order@[a] as int,
                    order@[b] as int,
                ) by {
                    let pa = if a < at { a } else { a - 1 };
                    let pb = if b < at { b } else { b - 1 };
                    if a != at {
                        assert(order@[a] == had[pa]);
                    }
                    if b != at {
                        assert(order@[b] == had[pb]);
                    }
                }
            }
        }
        next += 1;
    }
    proof {
        let out = ints(order@);
        let keeps = |i: int| keep@[i];
        assert forall|i: int| 0 <= i < n && #[trigger] keeps(i) implies out.contains(i) by {
            assert(keep@[i as usize as int]);
            assert(order@.contains(i as usize));
            let p = choose|p: int| 0 <= p < order@.len() && order@[p] == i as usize;
            assert(out[p] == i);
        }
        assert forall|a: int, b: int|
            #![trigger out[a], out[b]]
            0 <= a < b < out.len() implies before(out[a], out[b]) by {
            assert(before(order@[a] as int, order@[b] as int));
        }
        assert forall|a: int|
            #![trigger out[a]]
            0 <= a < out.len() implies 0 <= out[a] < n && keeps(out[a]) by {
            assert(keep@[order@[a] as int]);
        }
        lemma_arrangement_unique(out, n, keeps, before);
    }
    order
}

} // verus!
