//! The order registrations arrive in does not matter.
//!
//! Two lists that hold the same registrations in a different order lead to
//! the same plan, unless something about them is contradictory.

use crate::assemble;
use crate::diagnostic::DiagnosticView;
use crate::lane;
use crate::lists;
use crate::order;
use crate::registry::{CandidateView, InputView, RegisteredView};
use crate::reorder;
use crate::resolve;
use crate::resolve::{KeyView, NamedView};
use crate::text;
use crate::version;
use crate::version::OriginView;
use vstd::prelude::*;

verus! {

/// Whether nothing in a list of complaints is fatal.
pub open spec fn nothing_fatal(problems: Seq<DiagnosticView>) -> bool {
    forall|d: DiagnosticView| #[trigger] problems.contains(d) ==> !d.fatal()
}

/// What comes out holds exactly what is kept, in order.
pub proof fn lemma_in_key_order(keys: Seq<(KeyView, OriginView)>, latest: bool)
    ensures
        order::is_arrangement(
            resolve::key_order(keys, latest),
            keys.len() as int,
            |i: int| resolve::survives(keys, latest, i),
            |i: int, j: int| resolve::keyed_before(keys, latest, i, j),
        ),
{
    resolve::lemma_keyed_before(keys, latest);
    order::lemma_arrangement(
        keys.len() as int,
        |i: int| resolve::survives(keys, latest, i),
        |i: int, j: int| resolve::keyed_before(keys, latest, i, j),
    );
}

/// A registration is kept wherever it stands in the list.
proof fn lemma_survives_anywhere(
    ka: Seq<(KeyView, OriginView)>,
    kb: Seq<(KeyView, OriginView)>,
    pi: Seq<int>,
    latest: bool,
    i: int,
)
    requires
        reorder::is_permutation(pi, ka.len() as int),
        kb == lists::picked(ka, pi),
        0 <= i < kb.len(),
    ensures
        resolve::survives(kb, latest, i) == resolve::survives(ka, latest, pi[i]),
{
    if latest {
        if resolve::survives(kb, latest, i) {
            assert forall|j: int|
                0 <= j < ka.len() && (#[trigger] ka[j]).0 == ka[pi[i]].0 && ka[j].1.crate_name
                    == ka[pi[i]].1.crate_name implies !version::older(
                ka[pi[i]].1.numbers(),
                ka[j].1.numbers(),
            ) by {
                assert(pi.contains(j));
                let k = choose|k: int| 0 <= k < pi.len() && pi[k] == j;
                assert(kb[k] == ka[j]);
            }
        }
        if resolve::survives(ka, latest, pi[i]) {
            assert forall|j: int|
                0 <= j < kb.len() && (#[trigger] kb[j]).0 == kb[i].0 && kb[j].1.crate_name
                    == kb[i].1.crate_name implies !version::older(
                kb[i].1.numbers(),
                kb[j].1.numbers(),
            ) by {
                assert(ka[pi[j]].0 == ka[pi[i]].0);
            }
        }
    }
}

/// A registration shares its key with the same others wherever they stand.
proof fn lemma_sharer_anywhere(
    ka: Seq<(KeyView, OriginView)>,
    kb: Seq<(KeyView, OriginView)>,
    pi: Seq<int>,
    latest: bool,
    i: int,
)
    requires
        reorder::is_permutation(pi, ka.len() as int),
        kb == lists::picked(ka, pi),
        0 <= i < kb.len(),
    ensures
        forall|j: int| #[trigger]
            resolve::sharer(kb, latest, i, j) ==> resolve::sharer(ka, latest, pi[i], pi[j]),
        forall|j: int| #[trigger]
            resolve::sharer(ka, latest, pi[i], j) ==> exists|k: int|
                0 <= k < pi.len() && #[trigger] pi[k] == j && resolve::sharer(kb, latest, i, k),
{
    assert forall|j: int| #[trigger] resolve::sharer(kb, latest, i, j) implies resolve::sharer(
        ka,
        latest,
        pi[i],
        pi[j],
    ) by {
        lemma_survives_anywhere(ka, kb, pi, latest, j);
    }
    assert forall|j: int| #[trigger] resolve::sharer(ka, latest, pi[i], j) implies exists|k: int|
        0 <= k < pi.len() && #[trigger] pi[k] == j && resolve::sharer(kb, latest, i, k) by {
        assert(pi.contains(j));
        let k = choose|k: int| 0 <= k < pi.len() && pi[k] == j;
        lemma_survives_anywhere(ka, kb, pi, latest, k);
        assert(resolve::sharer(kb, latest, i, k));
    }
}

/// A registration is reported under the same name wherever it stands.
proof fn lemma_name_anywhere(
    ka: Seq<(KeyView, OriginView)>,
    kb: Seq<(KeyView, OriginView)>,
    pi: Seq<int>,
    latest: bool,
    i: int,
)
    requires
        reorder::is_permutation(pi, ka.len() as int),
        kb == lists::picked(ka, pi),
        0 <= i < kb.len(),
    ensures
        resolve::resolved_name(kb, latest, i) == resolve::resolved_name(ka, latest, pi[i]),
{
    lemma_sharer_anywhere(ka, kb, pi, latest, i);
    let p = pi[i];
    assert(resolve::stands_alone(kb, latest, i) == resolve::stands_alone(ka, latest, p)) by {
        if resolve::stands_alone(kb, latest, i) {
            assert forall|j: int| #[trigger] resolve::sharer(ka, latest, p, j) implies j == p by {
                let k = choose|k: int|
                    0 <= k < pi.len() && #[trigger] pi[k] == j && resolve::sharer(kb, latest, i, k);
                assert(k == i);
            }
        }
        if resolve::stands_alone(ka, latest, p) {
            assert forall|j: int| #[trigger] resolve::sharer(kb, latest, i, j) implies j == i by {
                assert(resolve::sharer(ka, latest, p, pi[j]));
                assert(pi[j] == pi[i]);
            }
        }
    }
    assert(resolve::crates_differ(kb, latest, i) == resolve::crates_differ(ka, latest, p)) by {
        if resolve::crates_differ(kb, latest, i) {
            assert forall|j: int, k: int|
                #![trigger resolve::sharer(ka, latest, p, j), resolve::sharer(ka, latest, p, k)]
                resolve::sharer(ka, latest, p, j) && resolve::sharer(ka, latest, p, k) && j
                    != k implies ka[j].1.crate_name != ka[k].1.crate_name by {
                let x = choose|x: int|
                    0 <= x < pi.len() && #[trigger] pi[x] == j && resolve::sharer(kb, latest, i, x);
                let y = choose|y: int|
                    0 <= y < pi.len() && #[trigger] pi[y] == k && resolve::sharer(kb, latest, i, y);
                assert(kb[x] == ka[j] && kb[y] == ka[k]);
            }
        }
        if resolve::crates_differ(ka, latest, p) {
            assert forall|j: int, k: int|
                #![trigger resolve::sharer(kb, latest, i, j), resolve::sharer(kb, latest, i, k)]
                resolve::sharer(kb, latest, i, j) && resolve::sharer(kb, latest, i, k) && j
                    != k implies kb[j].1.crate_name != kb[k].1.crate_name by {
                assert(resolve::sharer(ka, latest, p, pi[j]));
                assert(resolve::sharer(ka, latest, p, pi[k]));
                assert(pi[j] != pi[k]);
            }
        }
    }
    assert(resolve::one_crate(kb, latest, i) == resolve::one_crate(ka, latest, p)) by {
        if resolve::one_crate(kb, latest, i) {
            assert forall|j: int|
                #![trigger resolve::sharer(ka, latest, p, j)]
                resolve::sharer(ka, latest, p, j) implies ka[j].1.crate_name
                == ka[p].1.crate_name by {
                let x = choose|x: int|
                    0 <= x < pi.len() && #[trigger] pi[x] == j && resolve::sharer(kb, latest, i, x);
                assert(kb[x] == ka[j]);
            }
        }
        if resolve::one_crate(ka, latest, p) {
            assert forall|j: int|
                #![trigger resolve::sharer(kb, latest, i, j)]
                resolve::sharer(kb, latest, i, j) implies kb[j].1.crate_name
                == kb[i].1.crate_name by {
                assert(resolve::sharer(ka, latest, p, pi[j]));
            }
        }
    }
}

/// What comes out is the same, in some order, whatever order it went in.
proof fn lemma_resolved_anywhere<V>(
    a: Seq<V>,
    ka: Seq<(KeyView, OriginView)>,
    b: Seq<V>,
    kb: Seq<(KeyView, OriginView)>,
    pi: Seq<int>,
    latest: bool,
)
    requires
        a.len() == ka.len(),
        reorder::is_permutation(pi, ka.len() as int),
        b == lists::picked(a, pi),
        kb == lists::picked(ka, pi),
    ensures
        forall|x: NamedView<V>|
            resolve::arranged(a, ka, latest).contains(x) <==> resolve::arranged(
                b,
                kb,
                latest,
            ).contains(x),
{
    lemma_in_key_order(ka, latest);
    lemma_in_key_order(kb, latest);
    let oa = resolve::key_order(ka, latest);
    let ob = resolve::key_order(kb, latest);
    let keeps_a = |i: int| resolve::survives(ka, latest, i);
    let keeps_b = |i: int| resolve::survives(kb, latest, i);
    let ra = resolve::arranged(a, ka, latest);
    let rb = resolve::arranged(b, kb, latest);
    assert forall|x: NamedView<V>| ra.contains(x) <==> rb.contains(x) by {
        if ra.contains(x) {
            let k = choose|k: int| 0 <= k < ra.len() && ra[k] == x;
            let i = oa[k];
            assert(keeps_a(i));
            assert(pi.contains(i));
            let j = choose|j: int| 0 <= j < pi.len() && pi[j] == i;
            lemma_survives_anywhere(ka, kb, pi, latest, j);
            lemma_name_anywhere(ka, kb, pi, latest, j);
            assert(keeps_b(j));
            assert(ob.contains(j));
            let m = choose|m: int| 0 <= m < ob.len() && ob[m] == j;
            assert(rb[m] == x);
        }
        if rb.contains(x) {
            let k = choose|k: int| 0 <= k < rb.len() && rb[k] == x;
            let j = ob[k];
            assert(keeps_b(j));
            lemma_survives_anywhere(ka, kb, pi, latest, j);
            lemma_name_anywhere(ka, kb, pi, latest, j);
            assert(keeps_a(pi[j]));
            assert(oa.contains(pi[j]));
            let m = choose|m: int| 0 <= m < oa.len() && oa[m] == pi[j];
            assert(ra[m] == x);
        }
    }
}

/// Whether the candidates of one type are all reported under different names.
spec fn names_differ(nc: Seq<NamedView<CandidateView>>) -> bool {
    forall|p: int, q: int|
        #![trigger nc[p], nc[q]]
        0 <= p < nc.len() && 0 <= q < nc.len() && p != q && nc[p].reg.input_type_name
            == nc[q].reg.input_type_name ==> nc[p].name != nc[q].name
}

/// The first place a text occurs.
pub proof fn lemma_first_occurrence(all: Seq<Seq<char>>, i: int) -> (first: int)
    requires
        0 <= i < all.len(),
    ensures
        0 <= first <= i,
        all[first] == all[i],
        lists::first_of_its_kind(all, first),
    decreases i,
{
    if lists::first_of_its_kind(all, i) {
        i
    } else {
        let j = choose|j: int| 0 <= j < i && #[trigger] all[j] == all[i];
        lemma_first_occurrence(all, j)
    }
}

/// The different texts are the ones that occur, strictly sorted.
pub proof fn lemma_distinct_sorted(all: Seq<Seq<char>>)
    ensures
        order::is_arrangement(
            lists::distinct_order(all),
            all.len() as int,
            |i: int| lists::first_of_its_kind(all, i),
            |i: int, j: int| lists::text_then_position(all, i, j),
        ),
        forall|x: Seq<char>| lists::distinct_sorted(all).contains(x) <==> all.contains(x),
        reorder::strictly_sorted(
            lists::distinct_sorted(all),
            |x: Seq<char>, y: Seq<char>| text::text_before(x, y),
        ),
{
    let n = all.len() as int;
    let keep = |i: int| lists::first_of_its_kind(all, i);
    let before = |i: int, j: int| lists::text_then_position(all, i, j);
    lists::lemma_text_then_position(all);
    order::lemma_arrangement(n, keep, before);
    let at = lists::distinct_order(all);
    let out = lists::distinct_sorted(all);
    assert forall|x: Seq<char>| out.contains(x) <==> all.contains(x) by {
        if out.contains(x) {
            let k = choose|k: int| 0 <= k < out.len() && out[k] == x;
            assert(all[at[k]] == x);
        }
        if all.contains(x) {
            let i = choose|i: int| 0 <= i < all.len() && all[i] == x;
            let first = lemma_first_occurrence(all, i);
            assert(keep(first));
            assert(at.contains(first));
            let k = choose|k: int| 0 <= k < at.len() && at[k] == first;
            assert(out[k] == x);
        }
    }
    assert forall|i: int, j: int|
        #![trigger out[i], out[j]]
        0 <= i < j < out.len() implies text::text_before(out[i], out[j]) by {
        assert(before(at[i], at[j]));
        assert(keep(at[j]));
        if all[at[i]] == all[at[j]] {
            assert(at[i] < at[j]);
            assert(all[at[i]] != all[at[j]]);
        }
    }
}

/// Text order never holds both ways round.
pub proof fn lemma_text_one_way()
    ensures
        forall|x: Seq<char>, y: Seq<char>|
            #![trigger text::text_before(x, y)]
            text::text_before(x, y) ==> !text::text_before(y, x),
{
    assert forall|x: Seq<char>, y: Seq<char>|
        #![trigger text::text_before(x, y)]
        text::text_before(x, y) implies !text::text_before(y, x) by {
        if text::text_before(y, x) {
            text::lemma_text_transitive(x, y, x);
            text::lemma_text_irreflexive(x);
        }
    }
}

/// Lists that hold the same texts have the same different texts.
proof fn lemma_distinct_sorted_same(a: Seq<Seq<char>>, b: Seq<Seq<char>>)
    requires
        forall|x: Seq<char>| a.contains(x) <==> b.contains(x),
    ensures
        lists::distinct_sorted(a) == lists::distinct_sorted(b),
{
    lemma_distinct_sorted(a);
    lemma_distinct_sorted(b);
    lemma_text_one_way();
    assert forall|x: Seq<char>| lists::distinct_sorted(a).contains(x)
        <==> lists::distinct_sorted(b).contains(x) by {
        assert(a.contains(x) <==> b.contains(x));
    }
    reorder::lemma_strictly_sorted_unique(
        lists::distinct_sorted(a),
        lists::distinct_sorted(b),
        |x: Seq<char>, y: Seq<char>| text::text_before(x, y),
    );
}

/// Sorting by name keeps every item, and sorts strictly where no name is
/// shared.
pub proof fn lemma_sorted_by_name<V>(s: Seq<NamedView<V>>)
    ensures
        forall|x: NamedView<V>| lists::sorted_by_name(s).contains(x) <==> s.contains(x),
        (forall|i: int, j: int|
            #![trigger s[i], s[j]]
            0 <= i < s.len() && 0 <= j < s.len() && i != j ==> s[i].name != s[j].name)
            ==> reorder::strictly_sorted(
            lists::sorted_by_name(s),
            |x: NamedView<V>, y: NamedView<V>| text::text_before(x.name, y.name),
        ),
{
    let names = lists::names_of(s);
    let n = s.len() as int;
    let keep = |i: int| true;
    let before = |i: int, j: int| lists::text_then_position(names, i, j);
    lists::lemma_text_then_position(names);
    order::lemma_arrangement(n, keep, before);
    let at = lists::name_order(names);
    let out = lists::sorted_by_name(s);
    assert forall|x: NamedView<V>| out.contains(x) <==> s.contains(x) by {
        if out.contains(x) {
            let k = choose|k: int| 0 <= k < out.len() && out[k] == x;
            assert(s[at[k]] == x);
        }
        if s.contains(x) {
            let i = choose|i: int| 0 <= i < s.len() && s[i] == x;
            assert(keep(i));
            assert(at.contains(i));
            let k = choose|k: int| 0 <= k < at.len() && at[k] == i;
            assert(out[k] == x);
        }
    }
    if forall|i: int, j: int|
        #![trigger s[i], s[j]]
        0 <= i < s.len() && 0 <= j < s.len() && i != j ==> s[i].name != s[j].name {
        assert forall|i: int, j: int|
            #![trigger out[i], out[j]]
            0 <= i < j < out.len() implies text::text_before(out[i].name, out[j].name) by {
            assert(before(at[i], at[j]));
            assert(!before(at[i], at[i]));
            assert(s[at[i]].name != s[at[j]].name);
        }
    }
}

/// Lists that hold the same items under different names sort alike.
proof fn lemma_sorted_by_name_same<V>(a: Seq<NamedView<V>>, b: Seq<NamedView<V>>)
    requires
        forall|x: NamedView<V>| a.contains(x) <==> b.contains(x),
        forall|i: int, j: int|
            #![trigger a[i], a[j]]
            0 <= i < a.len() && 0 <= j < a.len() && i != j ==> a[i].name != a[j].name,
        forall|i: int, j: int|
            #![trigger b[i], b[j]]
            0 <= i < b.len() && 0 <= j < b.len() && i != j ==> b[i].name != b[j].name,
    ensures
        lists::sorted_by_name(a) == lists::sorted_by_name(b),
{
    lemma_sorted_by_name(a);
    lemma_sorted_by_name(b);
    lemma_text_one_way();
    let less = |x: NamedView<V>, y: NamedView<V>| text::text_before(x.name, y.name);
    assert forall|x: NamedView<V>| lists::sorted_by_name(a).contains(x)
        <==> lists::sorted_by_name(b).contains(x) by {
        assert(a.contains(x) <==> b.contains(x));
    }
    assert(reorder::one_way(less));
    reorder::lemma_strictly_sorted_unique(
        lists::sorted_by_name(a),
        lists::sorted_by_name(b),
        less,
    );
}

/// The complaints about shared names are empty only where no name is shared.
proof fn lemma_no_name_repeated<B>(names: Seq<Seq<char>>, f: spec_fn(int) -> Option<B>)
    requires
        lists::distinct_order(names).filter_map(f).len() == 0,
        forall|p: int| lists::repeated(names, p) ==> (#[trigger] f(p)) is Some,
    ensures
        forall|i: int, j: int|
            #![trigger names[i], names[j]]
            0 <= i < names.len() && 0 <= j < names.len() && i != j ==> names[i] != names[j],
{
    lemma_distinct_sorted(names);
    let at = lists::distinct_order(names);
    reorder::lemma_filter_map_contains(at, f);
    assert forall|i: int, j: int|
        #![trigger names[i], names[j]]
        0 <= i < names.len() && 0 <= j < names.len() && i != j implies names[i] != names[j] by {
        if names[i] == names[j] {
            let first = lemma_first_occurrence(names, i);
            let keep = |i: int| lists::first_of_its_kind(names, i);
            assert(keep(first));
            assert(at.contains(first));
            let k = choose|k: int| 0 <= k < at.len() && at[k] == first;
            assert(lists::repeated(names, first)) by {
                if first == i {
                    assert(names[j] == names[first]);
                } else {
                    assert(names[i] == names[first]);
                }
            }
            assert(f(at[k]) is Some);
            assert(at.filter_map(f).contains(f(at[k])->0));
        }
    }
}

/// What comes out in two places went in in two places.
proof fn lemma_resolved_apart<V>(
    a: Seq<V>,
    ka: Seq<(KeyView, OriginView)>,
    latest: bool,
    p: int,
    q: int,
)
    requires
        a.len() == ka.len(),
        0 <= p < resolve::arranged(a, ka, latest).len(),
        0 <= q < resolve::arranged(a, ka, latest).len(),
        p != q,
    ensures
        resolve::key_order(ka, latest)[p] != resolve::key_order(ka, latest)[q],
{
    lemma_in_key_order(ka, latest);
    resolve::lemma_keyed_before(ka, latest);
    let at = resolve::key_order(ka, latest);
    let before = |i: int, j: int| resolve::keyed_before(ka, latest, i, j);
    let keep = |i: int| resolve::survives(ka, latest, i);
    assert(keep(at[p]) && keep(at[q]));
    assert(!before(at[p], at[p]));
    assert(!before(at[q], at[q]));
    if p < q {
        assert(before(at[p], at[q]));
    } else {
        assert(before(at[q], at[p]));
    }
}

/// Where everything is kept, what went in comes out.
pub proof fn lemma_comes_out(ka: Seq<(KeyView, OriginView)>, i: int) -> (k: int)
    requires
        0 <= i < ka.len(),
    ensures
        0 <= k < resolve::key_order(ka, false).len(),
        resolve::key_order(ka, false)[k] == i,
{
    lemma_in_key_order(ka, false);
    let keep = |i: int| resolve::survives(ka, false, i);
    assert(keep(i));
    let at = resolve::key_order(ka, false);
    assert(at.contains(i));
    choose|k: int| 0 <= k < at.len() && at[k] == i
}

/// Two items reported under one name in one order are so in every order.
///
/// `alike` says which pairs are compared: all of them, or those of one type.
proof fn lemma_names_differ_anywhere<V>(
    a: Seq<V>,
    ka: Seq<(KeyView, OriginView)>,
    b: Seq<V>,
    kb: Seq<(KeyView, OriginView)>,
    pi: Seq<int>,
    alike: spec_fn(V, V) -> bool,
)
    requires
        a.len() == ka.len(),
        reorder::is_permutation(pi, ka.len() as int),
        b == lists::picked(a, pi),
        kb == lists::picked(ka, pi),
        forall|p: int, q: int|
            #![trigger resolve::arranged(a, ka, false)[p], resolve::arranged(a, ka, false)[q]]
            0 <= p < resolve::arranged(a, ka, false).len() && 0 <= q < resolve::arranged(
                a,
                ka,
                false,
            ).len() && p != q && alike(
                resolve::arranged(a, ka, false)[p].reg,
                resolve::arranged(a, ka, false)[q].reg,
            ) ==> resolve::arranged(a, ka, false)[p].name != resolve::arranged(a, ka, false)[q].name,
    ensures
        forall|p: int, q: int|
            #![trigger resolve::arranged(b, kb, false)[p], resolve::arranged(b, kb, false)[q]]
            0 <= p < resolve::arranged(b, kb, false).len() && 0 <= q < resolve::arranged(
                b,
                kb,
                false,
            ).len() && p != q && alike(
                resolve::arranged(b, kb, false)[p].reg,
                resolve::arranged(b, kb, false)[q].reg,
            ) ==> resolve::arranged(b, kb, false)[p].name != resolve::arranged(b, kb, false)[q].name,
{
    let ra = resolve::arranged(a, ka, false);
    let rb = resolve::arranged(b, kb, false);
    let ob = resolve::key_order(kb, false);
    lemma_in_key_order(kb, false);
    let keep = |i: int| resolve::survives(kb, false, i);
    assert forall|p: int, q: int|
        #![trigger rb[p], rb[q]]
        0 <= p < rb.len() && 0 <= q < rb.len() && p != q && alike(rb[p].reg, rb[q].reg) implies
        rb[p].name != rb[q].name by {
        lemma_resolved_apart(b, kb, false, p, q);
        assert(keep(ob[p]) && keep(ob[q]));
        let (i, j) = (pi[ob[p]], pi[ob[q]]);
        lemma_name_anywhere(ka, kb, pi, false, ob[p]);
        lemma_name_anywhere(ka, kb, pi, false, ob[q]);
        let x = lemma_comes_out(ka, i);
        let y = lemma_comes_out(ka, j);
        assert(ra[x].name == rb[p].name && ra[y].name == rb[q].name);
        assert(ra[x].reg == rb[p].reg && ra[y].reg == rb[q].reg);
        assert(x != y);
    }
}

/// Standalone benchmarks come out the same whatever order they arrive in,
/// unless two of them are called the same.
pub proof fn law_flat_order_does_not_matter(a: Seq<RegisteredView>, b: Seq<RegisteredView>)
    requires
        reorder::reordered(a, b),
        nothing_fatal(assemble::name_duplicates(assemble::named_registered(a))),
    ensures
        lists::sorted_by_name(assemble::named_registered(a)) == lists::sorted_by_name(
            assemble::named_registered(b),
        ),
{
    let pi = reorder::lemma_to_permutation(a, b);
    let ka = assemble::registered_entries(a);
    let kb = assemble::registered_entries(b);
    assert(kb =~= lists::picked(ka, pi));
    lemma_resolved_anywhere(a, ka, b, kb, pi, false);
    let ra = assemble::named_registered(a);
    let rb = assemble::named_registered(b);
    let names = lists::names_of(ra);
    let f = |p: int|
        if lists::repeated(names, p) {
            Some(
                DiagnosticView::DuplicateName {
                    name: ra[p].reg.name,
                    sources: ra.filter(
                        |r: NamedView<RegisteredView>| r.name == ra[p].name,
                    ).map_values(|r: NamedView<RegisteredView>| assemble::source_of(r.reg)),
                },
            )
        } else {
            None
        };
    let problems = assemble::name_duplicates(ra);
    if problems.len() > 0 {
        reorder::lemma_filter_map_contains(lists::distinct_order(names), f);
        assert(problems == lists::distinct_order(names).filter_map(f));
        assert(problems.contains(problems[0]));
        assert(problems[0].fatal());
    }
    lemma_no_name_repeated(names, f);
    assert forall|i: int, j: int|
        #![trigger ra[i], ra[j]]
        0 <= i < ra.len() && 0 <= j < ra.len() && i != j implies ra[i].name != ra[j].name by {
        assert(names[i] != names[j]);
    }
    lemma_names_differ_anywhere(a, ka, b, kb, pi, |x: RegisteredView, y: RegisteredView| true);
    lemma_sorted_by_name_same(ra, rb);
}

/// Whether inputs of one kind stand sorted by crate.
spec fn sorted_by_crate(ni: Seq<NamedView<InputView>>) -> bool {
    forall|p: int, q: int|
        #![trigger ni[p], ni[q]]
        0 <= p < q < ni.len() && lane::same_input(ni[p], ni[q]) ==> text::text_before(
            ni[p].origin.crate_name,
            ni[q].origin.crate_name,
        ) || ni[p].origin.crate_name == ni[q].origin.crate_name
}

/// The inputs of a group come out sorted by crate within each kind.
proof fn lemma_named_inputs_sorted(group: Seq<char>, inputs: Seq<InputView>)
    ensures
        sorted_by_crate(assemble::named_inputs(group, inputs)),
{
    let keys = lane::input_entries(group, inputs);
    let ni = assemble::named_inputs(group, inputs);
    let at = resolve::key_order(keys, true);
    let before = |i: int, j: int| resolve::keyed_before(keys, true, i, j);
    let keep = |i: int| resolve::survives(keys, true, i);
    lemma_in_key_order(keys, true);
    assert forall|p: int, q: int|
        #![trigger ni[p], ni[q]]
        0 <= p < q < ni.len() && lane::same_input(ni[p], ni[q]) implies text::text_before(
        ni[p].origin.crate_name,
        ni[q].origin.crate_name,
    ) || ni[p].origin.crate_name == ni[q].origin.crate_name by {
        assert(before(at[p], at[q]));
        assert(keep(at[p]) && keep(at[q]));
        assert(keys[at[p]].0 == keys[at[q]].0);
        resolve::lemma_key_order(keys[at[p]].0, keys[at[q]].0, keys[at[q]].0);
    }
}

/// The newest, first where several are equally new, of the inputs before `m`
/// that are of one kind with input `p`; below zero where there is none.
proof fn lemma_newest_before(ni: Seq<NamedView<InputView>>, p: int, m: int) -> (q: int)
    requires
        0 <= p < ni.len(),
        0 <= m <= ni.len(),
    ensures
        q < m,
        q < 0 ==> forall|r: int| 0 <= r < m ==> !lane::same_input(#[trigger] ni[r], ni[p]),
        q >= 0 ==> lane::same_input(ni[q], ni[p]),
        q >= 0 ==> forall|r: int|
            0 <= r < m && lane::same_input(#[trigger] ni[r], ni[p]) ==> !version::older(
                ni[q].origin.numbers(),
                ni[r].origin.numbers(),
            ) && (r < q ==> version::older(ni[r].origin.numbers(), ni[q].origin.numbers())),
    decreases m,
{
    if m == 0 {
        -1
    } else {
        let q = lemma_newest_before(ni, p, m - 1);
        if !lane::same_input(ni[m - 1], ni[p]) {
            q
        } else if q < 0 || version::older(ni[q].origin.numbers(), ni[m - 1].origin.numbers()) {
            m - 1
        } else {
            q
        }
    }
}

/// Of each kind there is a newest input.
pub proof fn lemma_newest_exists(ni: Seq<NamedView<InputView>>, p: int) -> (q: int)
    requires
        0 <= p < ni.len(),
    ensures
        0 <= q < ni.len(),
        lane::same_input(ni[q], ni[p]),
        lane::is_newest_input(ni, q),
{
    let q = lemma_newest_before(ni, p, ni.len() as int);
    assert(lane::same_input(ni[p], ni[p]));
    assert forall|r: int| 0 <= r < ni.len() && lane::same_input(#[trigger] ni[r], ni[q]) implies
        !version::older(ni[q].origin.numbers(), ni[r].origin.numbers()) && (r < q
        ==> version::older(ni[r].origin.numbers(), ni[q].origin.numbers())) by {
        assert(lane::same_input(ni[r], ni[p]));
    }
    q
}

/// Of each kind there is one newest input.
pub proof fn lemma_newest_once(ni: Seq<NamedView<InputView>>, p: int, q: int)
    requires
        0 <= p < ni.len(),
        0 <= q < ni.len(),
        lane::same_input(ni[p], ni[q]),
        lane::is_newest_input(ni, p),
        lane::is_newest_input(ni, q),
    ensures
        p == q,
{
    assert(lane::same_input(ni[q], ni[p]));
}

/// What [`lane::newest_inputs`] holds: the newest of each kind, strictly
/// sorted by type and name.
pub proof fn lemma_newest_inputs(ni: Seq<NamedView<InputView>>)
    ensures
        forall|x: NamedView<InputView>| #[trigger]
            lane::newest_inputs(ni).contains(x) ==> exists|p: int|
                0 <= p < ni.len() && #[trigger] ni[p] == x && lane::is_newest_input(ni, p),
        forall|p: int|
            0 <= p < ni.len() && #[trigger] lane::is_newest_input(ni, p)
                ==> lane::newest_inputs(ni).contains(ni[p]),
        reorder::strictly_sorted(lane::newest_inputs(ni), input_less()),
{
    let n = ni.len() as int;
    let keep = |p: int| lane::is_newest_input(ni, p);
    let before = |i: int, j: int| lane::input_before(ni, i, j);
    lane::lemma_input_before(ni);
    order::lemma_arrangement(n, keep, before);
    let at = order::arrangement(n, keep, before);
    let out = lane::newest_inputs(ni);
    assert(out == lists::picked(ni, at));
    assert forall|x: NamedView<InputView>| #[trigger] out.contains(x) implies exists|p: int|
        0 <= p < ni.len() && #[trigger] ni[p] == x && lane::is_newest_input(ni, p) by {
        let k = choose|k: int| 0 <= k < out.len() && out[k] == x;
        assert(keep(at[k]));
        assert(ni[at[k]] == x);
    }
    assert forall|p: int|
        0 <= p < ni.len() && #[trigger] lane::is_newest_input(ni, p) implies out.contains(
        ni[p],
    ) by {
        assert(keep(p));
        assert(at.contains(p));
        let k = choose|k: int| 0 <= k < at.len() && at[k] == p;
        assert(out[k] == ni[p]);
    }
    let less = input_less();
    assert forall|i: int, j: int|
        #![trigger out[i], out[j]]
        0 <= i < j < out.len() implies less(out[i], out[j]) by {
        assert(before(at[i], at[j]));
        assert(keep(at[i]) && keep(at[j]));
        if lane::same_input(ni[at[i]], ni[at[j]]) {
            lemma_newest_once(ni, at[i], at[j]);
            assert(!before(at[i], at[i]));
        }
    }
}

/// Inputs by type and then registered name.
pub open spec fn input_less() -> spec_fn(NamedView<InputView>, NamedView<InputView>) -> bool {
    |x: NamedView<InputView>, y: NamedView<InputView>|
        text::text_before(x.reg.ty_name, y.reg.ty_name) || (x.reg.ty_name == y.reg.ty_name
            && text::text_before(x.reg.name, y.reg.name))
}

/// The newest input of a kind in one order is the newest in every order.
proof fn lemma_newest_anywhere(
    n1: Seq<NamedView<InputView>>,
    n2: Seq<NamedView<InputView>>,
    p: int,
) -> (q: int)
    requires
        forall|x: NamedView<InputView>| n1.contains(x) <==> n2.contains(x),
        sorted_by_crate(n1),
        sorted_by_crate(n2),
        forall|i: int| 0 <= i < n1.len() ==> !#[trigger] lane::is_duplicate_input(n1, i),
        0 <= p < n1.len(),
        lane::is_newest_input(n1, p),
    ensures
        0 <= q < n2.len(),
        n2[q] == n1[p],
        lane::is_newest_input(n2, q),
{
    let x = n1[p];
    assert(n1.contains(x));
    let q0 = choose|q0: int| 0 <= q0 < n2.len() && n2[q0] == x;
    let q = lemma_newest_exists(n2, q0);
    let y = n2[q];
    if y != x {
        assert(n2.contains(y));
        let p2 = choose|p2: int| 0 <= p2 < n1.len() && n1[p2] == y;
        assert(lane::same_input(n1[p2], n1[p]));
        assert(lane::same_input(n2[q0], n2[q]));
        assert(x.origin.numbers() == y.origin.numbers());
        assert(p < p2);
        assert(q < q0);
        assert(lane::same_input(n1[p], n1[p2]));
        lemma_text_one_way();
        assert(x.origin.crate_name == y.origin.crate_name);
        assert(lane::held_before(n1, p, p2)) by {
            assert forall|r: int| 0 <= r < p2 && lane::same_input(#[trigger] n1[r], n1[p2]) implies
                !version::older(n1[p].origin.numbers(), n1[r].origin.numbers()) && (r < p
                ==> version::older(n1[r].origin.numbers(), n1[p].origin.numbers())) by {
                assert(lane::same_input(n1[r], n1[p]));
            }
        }
        assert(lane::is_duplicate_input(n1, p2));
    }
    q
}

/// The newest inputs are the same whatever order they arrive in, unless one
/// is registered twice.
proof fn lemma_newest_inputs_anywhere(
    n1: Seq<NamedView<InputView>>,
    n2: Seq<NamedView<InputView>>,
)
    requires
        forall|x: NamedView<InputView>| n1.contains(x) <==> n2.contains(x),
        sorted_by_crate(n1),
        sorted_by_crate(n2),
        forall|i: int| 0 <= i < n1.len() ==> !#[trigger] lane::is_duplicate_input(n1, i),
    ensures
        lane::newest_inputs(n1) == lane::newest_inputs(n2),
{
    lemma_newest_inputs(n1);
    lemma_newest_inputs(n2);
    let b1 = lane::newest_inputs(n1);
    let b2 = lane::newest_inputs(n2);
    assert forall|x: NamedView<InputView>| b1.contains(x) <==> b2.contains(x) by {
        if b1.contains(x) {
            let p = choose|p: int|
                0 <= p < n1.len() && #[trigger] n1[p] == x && lane::is_newest_input(n1, p);
            let q = lemma_newest_anywhere(n1, n2, p);
            assert(lane::is_newest_input(n2, q));
        }
        if b2.contains(x) {
            let q = choose|q: int|
                0 <= q < n2.len() && #[trigger] n2[q] == x && lane::is_newest_input(n2, q);
            assert(n2.contains(x));
            let p0 = choose|p0: int| 0 <= p0 < n1.len() && n1[p0] == x;
            let p = lemma_newest_exists(n1, p0);
            let q2 = lemma_newest_anywhere(n1, n2, p);
            lemma_newest_once(n2, q, q2);
            assert(lane::is_newest_input(n1, p));
        }
    }
    lemma_text_one_way();
    let less = input_less();
    assert(reorder::one_way(less)) by {
        assert forall|x: NamedView<InputView>, y: NamedView<InputView>| #[trigger]
            less(x, y) implies !less(y, x) by {
            text::lemma_text_irreflexive(x.reg.ty_name);
        }
    }
    reorder::lemma_strictly_sorted_unique(b1, b2, less);
}

/// A part of a list of complaints is not fatal where the whole is not.
proof fn lemma_parts_not_fatal(
    a: Seq<DiagnosticView>,
    b: Seq<DiagnosticView>,
)
    requires
        nothing_fatal(a + b),
    ensures
        nothing_fatal(a),
        nothing_fatal(b),
{
    assert forall|d: DiagnosticView| #[trigger] a.contains(d) implies !d.fatal() by {
        let k = choose|k: int| 0 <= k < a.len() && a[k] == d;
        assert((a + b)[k] == d);
        assert((a + b).contains(d));
    }
    assert forall|d: DiagnosticView| #[trigger] b.contains(d) implies !d.fatal() by {
        let k = choose|k: int| 0 <= k < b.len() && b[k] == d;
        assert((a + b)[a.len() + k] == d);
        assert((a + b).contains(d));
    }
}

/// What is gathered is not fatal only where each part is not.
proof fn lemma_gathered_not_fatal<A>(s: Seq<A>, f: spec_fn(A) -> Seq<DiagnosticView>, i: int)
    requires
        nothing_fatal(lists::gathered(s, f)),
        0 <= i < s.len(),
    ensures
        nothing_fatal(f(s[i])),
{
    reorder::lemma_gathered_contains(s, f);
}

/// Nothing fatal about the inputs of a group means none is registered twice.
proof fn lemma_no_input_twice(group: Seq<char>, ni: Seq<NamedView<InputView>>)
    requires
        nothing_fatal(lane::input_duplicates(group, ni)),
    ensures
        forall|i: int| 0 <= i < ni.len() ==> !#[trigger] lane::is_duplicate_input(ni, i),
{
    let all = lane::positions(ni.len());
    let f = |p: int|
        if lane::is_duplicate_input(ni, p) {
            Some(lane::twice(group, "input"@, ni[p].reg.name))
        } else {
            None
        };
    reorder::lemma_filter_map_contains(all, f);
    assert(lane::input_duplicates(group, ni) == all.filter_map(f));
    assert forall|i: int| 0 <= i < ni.len() implies !#[trigger] lane::is_duplicate_input(ni, i) by {
        if lane::is_duplicate_input(ni, i) {
            assert(all[i] == i);
            assert(f(all[i]) is Some);
            assert(all.filter_map(f).contains(f(all[i])->0));
        }
    }
}

/// Nothing fatal about the candidates of a lane means all are called
/// differently.
proof fn lemma_no_candidate_twice(group: Seq<char>, cs: Seq<NamedView<CandidateView>>)
    requires
        nothing_fatal(lane::candidate_duplicates(group, cs)),
    ensures
        forall|i: int, j: int|
            #![trigger cs[i], cs[j]]
            0 <= i < cs.len() && 0 <= j < cs.len() && i != j ==> cs[i].name != cs[j].name,
{
    let names = lists::names_of(cs);
    let f = |p: int|
        if lists::repeated(names, p) {
            Some(lane::twice(group, "candidate"@, cs[p].reg.name))
        } else {
            None
        };
    let problems = lane::candidate_duplicates(group, cs);
    assert(problems == lists::distinct_order(names).filter_map(f));
    if problems.len() > 0 {
        reorder::lemma_filter_map_contains(lists::distinct_order(names), f);
        assert(problems.contains(problems[0]));
    }
    lemma_no_name_repeated(names, f);
    assert forall|i: int, j: int|
        #![trigger cs[i], cs[j]]
        0 <= i < cs.len() && 0 <= j < cs.len() && i != j implies cs[i].name != cs[j].name by {
        assert(names[i] != names[j]);
    }
}

/// Filtering by type keeps names apart.
proof fn lemma_names_differ_in_type(nc: Seq<NamedView<CandidateView>>, ty: Seq<char>)
    requires
        names_differ(nc),
    ensures
        forall|i: int, j: int|
            #![trigger assemble::candidates_of_type(nc, ty)[i], assemble::candidates_of_type(nc, ty)[j]]
            0 <= i < assemble::candidates_of_type(nc, ty).len() && 0 <= j
                < assemble::candidates_of_type(nc, ty).len() && i != j
                ==> assemble::candidates_of_type(nc, ty)[i].name
                != assemble::candidates_of_type(nc, ty)[j].name,
{
    let keep = |c: NamedView<CandidateView>| c.reg.input_type_name == ty;
    let at = reorder::lemma_filter_positions(nc, keep);
    let cs = assemble::candidates_of_type(nc, ty);
    assert forall|i: int, j: int|
        #![trigger cs[i], cs[j]]
        0 <= i < cs.len() && 0 <= j < cs.len() && i != j implies cs[i].name != cs[j].name by {
        assert(cs[i] == nc[at[i]] && cs[j] == nc[at[j]]);
        if i < j {
            assert(at[i] < at[j]);
        } else {
            assert(at[j] < at[i]);
        }
    }
}

/// Names told apart in every type are told apart.
proof fn lemma_names_differ_from_types(nc: Seq<NamedView<CandidateView>>)
    requires
        forall|p: int|
            0 <= p < nc.len() ==> names_differ_in(
                assemble::candidates_of_type(nc, (#[trigger] nc[p]).reg.input_type_name),
            ),
    ensures
        names_differ(nc),
{
    assert forall|p: int, q: int|
        #![trigger nc[p], nc[q]]
        0 <= p < nc.len() && 0 <= q < nc.len() && p != q && nc[p].reg.input_type_name
            == nc[q].reg.input_type_name implies nc[p].name != nc[q].name by {
        let ty = nc[p].reg.input_type_name;
        let keep = |c: NamedView<CandidateView>| c.reg.input_type_name == ty;
        let at = reorder::lemma_filter_positions(nc, keep);
        let cs = assemble::candidates_of_type(nc, ty);
        assert(names_differ_in(cs));
        assert(keep(nc[p]) && keep(nc[q]));
        assert(at.contains(p) && at.contains(q));
        let x = choose|x: int| 0 <= x < at.len() && at[x] == p;
        let y = choose|y: int| 0 <= y < at.len() && at[y] == q;
        assert(cs[x] == nc[p] && cs[y] == nc[q]);
        assert(x != y);
    }
}

/// Whether everything in a list is called differently.
spec fn names_differ_in(cs: Seq<NamedView<CandidateView>>) -> bool {
    forall|i: int, j: int|
        #![trigger cs[i], cs[j]]
        0 <= i < cs.len() && 0 <= j < cs.len() && i != j ==> cs[i].name != cs[j].name
}

/// No complaint about types means every type is the one wanted.
pub proof fn lemma_mismatches(
    group: Seq<char>,
    inputs: Seq<NamedView<InputView>>,
    cs: Seq<NamedView<CandidateView>>,
)
    ensures
        lane::mismatches(group, inputs, cs).len() == 0 <==> {
            &&& forall|x: NamedView<InputView>| #[trigger]
                inputs.contains(x) ==> x.reg.type_id == inputs[0].reg.type_id
            &&& forall|x: NamedView<CandidateView>| #[trigger]
                cs.contains(x) ==> x.reg.input_type == inputs[0].reg.type_id
        },
        forall|d: DiagnosticView| #[trigger]
            lane::mismatches(group, inputs, cs).contains(d) ==> d.fatal(),
{
    let want = inputs[0].reg.type_id;
    let fi = |i: NamedView<InputView>|
        if i.reg.type_id != want {
            Some(
                DiagnosticView::MatrixTypeMismatch {
                    matrix: group,
                    candidate: i.name,
                    ty_name: i.reg.ty_name,
                },
            )
        } else {
            None
        };
    let fc = |c: NamedView<CandidateView>|
        if c.reg.input_type != want {
            Some(
                DiagnosticView::MatrixTypeMismatch {
                    matrix: group,
                    candidate: c.name,
                    ty_name: c.reg.input_type_name,
                },
            )
        } else {
            None
        };
    let (mi, mc) = (inputs.filter_map(fi), cs.filter_map(fc));
    let all = lane::mismatches(group, inputs, cs);
    assert(all == mi + mc);
    reorder::lemma_filter_map_contains(inputs, fi);
    reorder::lemma_filter_map_contains(cs, fc);
    assert forall|d: DiagnosticView| #[trigger] all.contains(d) implies d.fatal() by {
        let k = choose|k: int| 0 <= k < all.len() && all[k] == d;
        if k < mi.len() {
            assert(mi[k] == d);
            assert(mi.contains(d));
        } else {
            assert(mc[k - mi.len()] == d);
            assert(mc.contains(d));
        }
    }
    if all.len() == 0 {
        assert forall|x: NamedView<InputView>| #[trigger] inputs.contains(x) implies x.reg.type_id
            == want by {
            let i = choose|i: int| 0 <= i < inputs.len() && inputs[i] == x;
            if x.reg.type_id != want {
                assert(fi(inputs[i]) is Some);
                assert(mi.contains(fi(inputs[i])->0));
            }
        }
        assert forall|x: NamedView<CandidateView>| #[trigger] cs.contains(x) implies
            x.reg.input_type == want by {
            let i = choose|i: int| 0 <= i < cs.len() && cs[i] == x;
            if x.reg.input_type != want {
                assert(fc(cs[i]) is Some);
                assert(mc.contains(fc(cs[i])->0));
            }
        }
    } else {
        if mi.len() > 0 {
            assert(mi.contains(mi[0]));
            let i = choose|i: int| 0 <= i < inputs.len() && #[trigger] fi(inputs[i]) == Some(mi[0]);
            assert(inputs.contains(inputs[i]));
        } else {
            assert(mc.contains(mc[0]));
            let i = choose|i: int| 0 <= i < cs.len() && #[trigger] fc(cs[i]) == Some(mc[0]);
            assert(cs.contains(cs[i]));
        }
    }
}

/// Pairing makes the same lane whatever order the candidates are in.
proof fn lemma_pairing_anywhere(
    group: Seq<char>,
    ty: Seq<char>,
    c1: Seq<NamedView<CandidateView>>,
    c2: Seq<NamedView<CandidateView>>,
    inputs: Seq<NamedView<InputView>>,
)
    requires
        forall|x: NamedView<CandidateView>| c1.contains(x) <==> c2.contains(x),
        names_differ_in(c1),
        names_differ_in(c2),
        nothing_fatal(lane::pairing(group, ty, c1, inputs).problems),
    ensures
        lane::pairing(group, ty, c1, inputs).lane == lane::pairing(group, ty, c2, inputs).lane,
{
    lemma_sorted_by_name_same(c1, c2);
    let used = lane::inputs_or_unit(ty, inputs);
    if c1.len() > 0 {
        assert(c1.contains(c1[0]));
    }
    if c2.len() > 0 {
        assert(c2.contains(c2[0]));
    }
    lemma_mismatches(group, used, c1);
    lemma_mismatches(group, used, c2);
    if used.len() > 0 && c1.len() > 0 {
        let wrong = lane::mismatches(group, used, c1);
        if wrong.len() > 0 {
            assert(wrong.contains(wrong[0]));
        }
        assert(wrong.len() == 0);
        assert(lane::mismatches(group, used, c2).len() == 0);
    }
}

/// One group's lanes are the same whatever order its candidates and inputs
/// arrive in, unless something about them is contradictory.
pub proof fn law_group_order_does_not_matter(
    group: Seq<char>,
    c1: Seq<CandidateView>,
    c2: Seq<CandidateView>,
    i1: Seq<InputView>,
    i2: Seq<InputView>,
)
    requires
        reorder::reordered(c1, c2),
        reorder::reordered(i1, i2),
        nothing_fatal(assemble::group_outcome(group, c1, i1).problems),
    ensures
        assemble::group_outcome(group, c1, i1).lanes == assemble::group_outcome(
            group,
            c2,
            i2,
        ).lanes,
{
    let nc1 = assemble::named_candidates(group, c1);
    let nc2 = assemble::named_candidates(group, c2);
    let ni1 = assemble::named_inputs(group, i1);
    let ni2 = assemble::named_inputs(group, i2);
    let types = assemble::group_types(group, c1, i1);
    let dups = |ty: Seq<char>|
        lane::candidate_duplicates(group, assemble::candidates_of_type(nc1, ty));
    let wrong = |ty: Seq<char>| assemble::type_pairing(group, c1, i1, ty).problems;
    lemma_parts_not_fatal(
        lane::input_duplicates(group, ni1) + lists::gathered(types, dups),
        lists::gathered(types, wrong),
    );
    lemma_parts_not_fatal(lane::input_duplicates(group, ni1), lists::gathered(types, dups));

    let pc = reorder::lemma_to_permutation(c1, c2);
    let kc1 = lane::candidate_entries(group, c1);
    let kc2 = lane::candidate_entries(group, c2);
    assert(kc2 =~= lists::picked(kc1, pc));
    lemma_resolved_anywhere(c1, kc1, c2, kc2, pc, false);

    let pi = reorder::lemma_to_permutation(i1, i2);
    let ki1 = lane::input_entries(group, i1);
    let ki2 = lane::input_entries(group, i2);
    assert(ki2 =~= lists::picked(ki1, pi));
    lemma_resolved_anywhere(i1, ki1, i2, ki2, pi, true);

    lemma_no_input_twice(group, ni1);
    lemma_named_inputs_sorted(group, i1);
    lemma_named_inputs_sorted(group, i2);
    lemma_newest_inputs_anywhere(ni1, ni2);
    let best = lane::newest_inputs(ni1);

    let named1 = assemble::types_named(nc1, best);
    let named2 = assemble::types_named(nc2, best);
    lemma_distinct_sorted(named1);
    lemma_types_named(nc1, nc2, best);
    lemma_types_named(nc2, nc1, best);
    lemma_distinct_sorted_same(named1, named2);

    assert forall|p: int| 0 <= p < nc1.len() implies names_differ_in(
        assemble::candidates_of_type(nc1, (#[trigger] nc1[p]).reg.input_type_name),
    ) by {
        let ty = nc1[p].reg.input_type_name;
        assert(named1[p] == ty);
        assert(named1.contains(ty));
        assert(types.contains(ty));
        let k = choose|k: int| 0 <= k < types.len() && types[k] == ty;
        lemma_gathered_not_fatal(types, dups, k);
        lemma_no_candidate_twice(group, assemble::candidates_of_type(nc1, ty));
    }
    lemma_names_differ_from_types(nc1);
    lemma_names_differ_anywhere(
        c1,
        kc1,
        c2,
        kc2,
        pc,
        |x: CandidateView, y: CandidateView| x.input_type_name == y.input_type_name,
    );
    assert(names_differ(nc2)) by {
        assert forall|p: int, q: int|
            #![trigger nc2[p], nc2[q]]
            0 <= p < nc2.len() && 0 <= q < nc2.len() && p != q && nc2[p].reg.input_type_name
                == nc2[q].reg.input_type_name implies nc2[p].name != nc2[q].name by {
            assert(nc2 == resolve::arranged(c2, kc2, false));
        }
    }

    let made1 = |ty: Seq<char>| assemble::type_pairing(group, c1, i1, ty).lane;
    let made2 = |ty: Seq<char>| assemble::type_pairing(group, c2, i2, ty).lane;
    assert forall|k: int| 0 <= k < types.len() implies made1(#[trigger] types[k]) == made2(
        types[k],
    ) by {
        let ty = types[k];
        let cs1 = assemble::candidates_of_type(nc1, ty);
        let cs2 = assemble::candidates_of_type(nc2, ty);
        let keep = |c: NamedView<CandidateView>| c.reg.input_type_name == ty;
        reorder::lemma_filter_contains(nc1, keep);
        reorder::lemma_filter_contains(nc2, keep);
        assert forall|x: NamedView<CandidateView>| cs1.contains(x) <==> cs2.contains(x) by {
            assert(nc1.contains(x) <==> nc2.contains(x));
        }
        lemma_names_differ_in_type(nc1, ty);
        lemma_names_differ_in_type(nc2, ty);
        assert(names_differ_in(cs1) && names_differ_in(cs2));
        lemma_gathered_not_fatal(types, wrong, k);
        lemma_pairing_anywhere(
            group,
            ty,
            cs1,
            cs2,
            assemble::inputs_of_type(best, ty),
        );
    }
    reorder::lemma_filter_map_same(types, made1, made2);
}

/// The types named by candidates that hold the same.
proof fn lemma_types_named(
    n1: Seq<NamedView<CandidateView>>,
    n2: Seq<NamedView<CandidateView>>,
    best: Seq<NamedView<InputView>>,
)
    requires
        forall|x: NamedView<CandidateView>| n1.contains(x) <==> n2.contains(x),
    ensures
        forall|t: Seq<char>|
            assemble::types_named(n1, best).contains(t) ==> assemble::types_named(
                n2,
                best,
            ).contains(t),
{
    let (a, b) = (assemble::types_named(n1, best), assemble::types_named(n2, best));
    assert forall|t: Seq<char>| a.contains(t) implies b.contains(t) by {
        let k = choose|k: int| 0 <= k < a.len() && a[k] == t;
        if k < n1.len() {
            assert(n1.contains(n1[k]));
            let j = choose|j: int| 0 <= j < n2.len() && n2[j] == n1[k];
            assert(b[j] == t);
        } else {
            assert(b[k - n1.len() + n2.len()] == t);
        }
    }
}

/// The order registrations arrive in does not matter: two lists that hold the
/// same registrations lead to the same plan, unless something about them is
/// fatal.
pub proof fn law_arrival_order_does_not_matter(
    r1: Seq<RegisteredView>,
    r2: Seq<RegisteredView>,
    c1: Seq<CandidateView>,
    c2: Seq<CandidateView>,
    i1: Seq<InputView>,
    i2: Seq<InputView>,
)
    requires
        reorder::reordered(r1, r2),
        reorder::reordered(c1, c2),
        reorder::reordered(i1, i2),
        nothing_fatal(assemble::problems_of(r1, c1, i1)),
    ensures
        assemble::plan_of(r1, c1, i1) == assemble::plan_of(r2, c2, i2),
{
    let groups = lists::distinct_sorted(assemble::groups_named(c1, i1));
    let wrong = |g: Seq<char>| assemble::outcome_of(c1, i1, g).problems;
    lemma_parts_not_fatal(
        assemble::name_duplicates(assemble::named_registered(r1)),
        lists::gathered(groups, wrong),
    );
    law_flat_order_does_not_matter(r1, r2);

    let of_candidate = |c: CandidateView| c.groups;
    let of_input = |i: InputView| i.groups;
    reorder::lemma_gathered_reordered(c1, c2, of_candidate);
    reorder::lemma_gathered_reordered(i1, i2, of_input);
    let (gc1, gc2) = (lists::gathered(c1, of_candidate), lists::gathered(c2, of_candidate));
    let (gi1, gi2) = (lists::gathered(i1, of_input), lists::gathered(i2, of_input));
    reorder::lemma_reordered_contains(gc1, gc2);
    reorder::lemma_reordered_contains(gi1, gi2);
    assert forall|g: Seq<char>| assemble::groups_named(c1, i1).contains(g)
        <==> assemble::groups_named(c2, i2).contains(g) by {
        lemma_contains_add(gc1, gi1, g);
        lemma_contains_add(gc2, gi2, g);
        assert(gc1.contains(g) <==> gc2.contains(g));
        assert(gi1.contains(g) <==> gi2.contains(g));
    }
    lemma_distinct_sorted_same(
        assemble::groups_named(c1, i1),
        assemble::groups_named(c2, i2),
    );

    let made1 = |g: Seq<char>| assemble::outcome_of(c1, i1, g).lanes;
    let made2 = |g: Seq<char>| assemble::outcome_of(c2, i2, g).lanes;
    assert forall|k: int| 0 <= k < groups.len() implies made1(#[trigger] groups[k]) == made2(
        groups[k],
    ) by {
        let group = groups[k];
        lemma_gathered_not_fatal(groups, wrong, k);
        reorder::lemma_gathered_reordered(
            c1,
            c2,
            |c: CandidateView| assemble::copies(c, c.groups, group),
        );
        reorder::lemma_gathered_reordered(
            i1,
            i2,
            |i: InputView| assemble::copies(i, i.groups, group),
        );
        law_group_order_does_not_matter(
            group,
            assemble::candidates_in(c1, group),
            assemble::candidates_in(c2, group),
            assemble::inputs_in(i1, group),
            assemble::inputs_in(i2, group),
        );
    }
    reorder::lemma_gathered_same(groups, made1, made2);
}

/// What two lists one after the other hold.
pub proof fn lemma_contains_add<A>(a: Seq<A>, b: Seq<A>, x: A)
    ensures
        (a + b).contains(x) <==> a.contains(x) || b.contains(x),
{
    if a.contains(x) {
        let k = choose|k: int| 0 <= k < a.len() && a[k] == x;
        assert((a + b)[k] == x);
    }
    if b.contains(x) {
        let k = choose|k: int| 0 <= k < b.len() && b[k] == x;
        assert((a + b)[a.len() + k] == x);
    }
    if (a + b).contains(x) {
        let k = choose|k: int| 0 <= k < (a + b).len() && (a + b)[k] == x;
        if k < a.len() {
            assert(a[k] == x);
        } else {
            assert(b[k - a.len()] == x);
        }
    }
}

} // verus!
