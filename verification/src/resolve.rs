//! Deciding what to keep and what to call it, when a name is registered more
//! than once.
//!
//! This arises when a crate pulls in an older copy of itself, or a rival
//! crate, with registrations enabled: both register, and both may use the
//! same name for the same idea.

use crate::lists;
use crate::order;
use crate::reorder;
use crate::text;
use crate::version;
use crate::version::{Origin, OriginView};
use vstd::prelude::*;

verus! {

/// What makes two registrations the same thing, apart from where they came
/// from.
///
/// The type is the part it is easy to leave out and expensive to: without it
/// the registrations made from one generic function for several types look
/// like one function registered several times.
#[derive(Debug, Clone, Copy, PartialEq, Eq, PartialOrd, Ord)]
pub struct Key {
    /// The group, or `""` for a standalone benchmark.
    pub scope: &'static str,
    /// The input type as the source spells it, or `""` where there is none.
    pub ty_name: &'static str,
    /// The registered name.
    pub name: &'static str,
}

/// One registration, with the name it should be reported under.
///
/// The name is owned because it is not always the registered one: when
/// several crates or versions register the same name they have to be told
/// apart, and the distinguishing part is worked out from the others present.
#[derive(Debug)]
pub struct Named<T: 'static> {
    pub name: String,
    pub reg: &'static T,
    pub origin: Origin,
}

/// The values of a [`Key`].
#[verifier::ext_equal]
pub struct KeyView {
    pub scope: Seq<char>,
    pub ty_name: Seq<char>,
    pub name: Seq<char>,
}

impl View for Key {
    type V = KeyView;

    open spec fn view(&self) -> KeyView {
        KeyView { scope: self.scope@, ty_name: self.ty_name@, name: self.name@ }
    }
}

/// The values of a [`Named`].
#[verifier::ext_equal]
pub struct NamedView<V> {
    pub name: Seq<char>,
    pub reg: V,
    pub origin: OriginView,
}

impl<T: View> View for Named<T> {
    type V = NamedView<T::V>;

    open spec fn view(&self) -> NamedView<T::V> {
        NamedView { name: self.name@, reg: self.reg@, origin: self.origin@ }
    }
}

/// The values of a list of [`Named`].
pub open spec fn named_views<T: View>(v: Seq<Named<T>>) -> Seq<NamedView<T::V>> {
    Seq::new(v.len(), |i: int| v[i]@)
}

/// The values of a list of registrations.
pub open spec fn reg_views<T: View>(v: Seq<&'static T>) -> Seq<T::V> {
    Seq::new(v.len(), |i: int| v[i]@)
}

/// The values of a list of keys and origins.
pub open spec fn entries(v: Seq<(Key, Origin)>) -> Seq<(KeyView, OriginView)> {
    Seq::new(v.len(), |i: int| (v[i].0@, v[i].1@))
}

/// Whether one key sorts before another: by scope, then type, then name.
pub open spec fn key_before(a: KeyView, b: KeyView) -> bool {
    ||| text::text_before(a.scope, b.scope)
    ||| a.scope == b.scope && text::text_before(a.ty_name, b.ty_name)
    ||| a.scope == b.scope && a.ty_name == b.ty_name && text::text_before(a.name, b.name)
}

/// Whether registration `i` is kept: always, unless only the latest of each
/// crate is asked for and the same crate registered a newer one.
pub open spec fn survives(keys: Seq<(KeyView, OriginView)>, latest_per_crate: bool, i: int) -> bool {
    latest_per_crate ==> forall|j: int|
        0 <= j < keys.len() && (#[trigger] keys[j]).0 == keys[i].0 && keys[j].1.crate_name
            == keys[i].1.crate_name ==> !version::older(keys[i].1.numbers(), keys[j].1.numbers())
}

/// The registrations kept, in the order they came in.
pub open spec fn resolution_order(keys: Seq<(KeyView, OriginView)>, latest_per_crate: bool) -> Seq<int> {
    Seq::new(keys.len(), |i: int| i).filter(|i: int| survives(keys, latest_per_crate, i))
}

/// Whether registration `i` sorts before registration `j`: by key, then,
/// where only the latest of each crate is kept, by crate, then as they came
/// in.
pub open spec fn keyed_before(
    keys: Seq<(KeyView, OriginView)>,
    latest_per_crate: bool,
    i: int,
    j: int,
) -> bool {
    ||| key_before(keys[i].0, keys[j].0)
    ||| keys[i].0 == keys[j].0 && if latest_per_crate && keys[i].1.crate_name
        != keys[j].1.crate_name {
        text::text_before(keys[i].1.crate_name, keys[j].1.crate_name)
    } else {
        i < j
    }
}

/// The registrations kept, sorted by key.
pub open spec fn key_order(keys: Seq<(KeyView, OriginView)>, latest_per_crate: bool) -> Seq<int> {
    order::arrangement(
        keys.len() as int,
        |i: int| survives(keys, latest_per_crate, i),
        |i: int, j: int| keyed_before(keys, latest_per_crate, i, j),
    )
}

/// Whether registration `j` is kept and shares the key of registration `i`.
pub open spec fn sharer(
    keys: Seq<(KeyView, OriginView)>,
    latest_per_crate: bool,
    i: int,
    j: int,
) -> bool {
    0 <= j < keys.len() && keys[j].0 == keys[i].0 && survives(keys, latest_per_crate, j)
}

/// Whether nothing else kept shares the key of registration `i`.
pub open spec fn stands_alone(keys: Seq<(KeyView, OriginView)>, latest_per_crate: bool, i: int) -> bool {
    forall|j: int| #[trigger] sharer(keys, latest_per_crate, i, j) ==> j == i
}

/// Whether the sharers of a key all come from different crates.
pub open spec fn crates_differ(keys: Seq<(KeyView, OriginView)>, latest_per_crate: bool, i: int) -> bool {
    forall|j: int, k: int|
        #![trigger sharer(keys, latest_per_crate, i, j), sharer(keys, latest_per_crate, i, k)]
        sharer(keys, latest_per_crate, i, j) && sharer(keys, latest_per_crate, i, k) && j != k
            ==> keys[j].1.crate_name != keys[k].1.crate_name
}

/// Whether the sharers of a key all come from one crate.
pub open spec fn one_crate(keys: Seq<(KeyView, OriginView)>, latest_per_crate: bool, i: int) -> bool {
    forall|j: int|
        #![trigger sharer(keys, latest_per_crate, i, j)]
        sharer(keys, latest_per_crate, i, j) ==> keys[j].1.crate_name == keys[i].1.crate_name
}

/// A name told apart from its namesakes by `suffix`, which is empty where
/// there is nothing to tell them apart by.
pub open spec fn suffixed(name: Seq<char>, suffix: Seq<char>) -> Seq<char> {
    if suffix.len() == 0 {
        name
    } else {
        name + "@"@ + suffix
    }
}

/// The least that tells registration `i` apart from the others of its key.
pub open spec fn distinguishing(keys: Seq<(KeyView, OriginView)>, latest_per_crate: bool, i: int) -> Seq<
    char,
> {
    let origin = keys[i].1;
    if crates_differ(keys, latest_per_crate, i) {
        origin.crate_name
    } else if one_crate(keys, latest_per_crate, i) {
        origin.crate_version
    } else {
        origin.crate_name + "-"@ + origin.crate_version
    }
}

/// The name registration `i` is reported under.
pub open spec fn resolved_name(keys: Seq<(KeyView, OriginView)>, latest_per_crate: bool, i: int) -> Seq<
    char,
> {
    if stands_alone(keys, latest_per_crate, i) {
        keys[i].0.name
    } else {
        suffixed(keys[i].0.name, distinguishing(keys, latest_per_crate, i))
    }
}

/// Registration `i`, under the name it is reported under.
pub open spec fn named_as<V>(
    items: Seq<V>,
    keys: Seq<(KeyView, OriginView)>,
    latest_per_crate: bool,
    i: int,
) -> NamedView<V> {
    NamedView {
        name: resolved_name(keys, latest_per_crate, i),
        reg: items[i],
        origin: keys[i].1,
    }
}

/// What is kept of `items`, in their order, each under its reported name.
pub open spec fn resolved<V>(
    items: Seq<V>,
    keys: Seq<(KeyView, OriginView)>,
    latest_per_crate: bool,
) -> Seq<NamedView<V>> {
    let order = resolution_order(keys, latest_per_crate);
    Seq::new(order.len(), |k: int| named_as(items, keys, latest_per_crate, order[k]))
}

/// What is kept of `items`, sorted by key, each under its reported name.
pub open spec fn arranged<V>(
    items: Seq<V>,
    keys: Seq<(KeyView, OriginView)>,
    latest_per_crate: bool,
) -> Seq<NamedView<V>> {
    let order = key_order(keys, latest_per_crate);
    Seq::new(order.len(), |k: int| named_as(items, keys, latest_per_crate, order[k]))
}

/// Keys are totally ordered.
pub proof fn lemma_key_order(a: KeyView, b: KeyView, c: KeyView)
    ensures
        !key_before(a, a),
        key_before(a, b) && key_before(b, c) ==> key_before(a, c),
        key_before(a, b) || a == b || key_before(b, a),
        key_before(a, b) ==> a != b,
{
    text::lemma_text_irreflexive(a.scope);
    text::lemma_text_irreflexive(a.ty_name);
    text::lemma_text_irreflexive(a.name);
    text::lemma_text_total(a.scope, b.scope);
    text::lemma_text_total(a.ty_name, b.ty_name);
    text::lemma_text_total(a.name, b.name);
    if key_before(a, b) && key_before(b, c) {
        if text::text_before(a.scope, b.scope) && text::text_before(b.scope, c.scope) {
            text::lemma_text_transitive(a.scope, b.scope, c.scope);
        }
        if text::text_before(a.ty_name, b.ty_name) && text::text_before(
            b.ty_name,
            c.ty_name,
        ) {
            text::lemma_text_transitive(a.ty_name, b.ty_name, c.ty_name);
        }
        if text::text_before(a.name, b.name) && text::text_before(b.name, c.name) {
            text::lemma_text_transitive(a.name, b.name, c.name);
        }
    }
}

/// Sorting registrations by key is a strict total order.
pub proof fn lemma_keyed_before(keys: Seq<(KeyView, OriginView)>, latest_per_crate: bool)
    ensures
        order::strict_order(
            keys.len() as int,
            |i: int, j: int| keyed_before(keys, latest_per_crate, i, j),
        ),
{
    let before = |i: int, j: int| keyed_before(keys, latest_per_crate, i, j);
    let n = keys.len() as int;
    assert forall|i: int| 0 <= i < n implies !#[trigger] before(i, i) by {
        lemma_key_order(keys[i].0, keys[i].0, keys[i].0);
    }
    assert forall|i: int, j: int, k: int|
        #![trigger before(i, j), before(j, k)]
        0 <= i < n && 0 <= j < n && 0 <= k < n && before(i, j) && before(j, k) implies before(
        i,
        k,
    ) by {
        lemma_key_order(keys[i].0, keys[j].0, keys[k].0);
        let ci = keys[i].1.crate_name;
        let cj = keys[j].1.crate_name;
        let ck = keys[k].1.crate_name;
        text::lemma_text_irreflexive(ci);
        if text::text_before(ci, cj) && text::text_before(cj, ck) {
            text::lemma_text_transitive(ci, cj, ck);
        }
    }
    assert forall|i: int, j: int|
        #![trigger before(i, j)]
        0 <= i < n && 0 <= j < n && i != j implies before(i, j) || before(j, i) by {
        lemma_key_order(keys[i].0, keys[j].0, keys[j].0);
        text::lemma_text_total(keys[i].1.crate_name, keys[j].1.crate_name);
    }
}

/// Whether two keys agree in every part.
fn keys_agree(a: &Key, b: &Key) -> (same: bool)
    ensures
        same == (a@ == b@),
{
    text::same_text(a.scope, b.scope) && text::same_text(a.ty_name, b.ty_name)
        && text::same_text(a.name, b.name)
}

/// Whether `a` sorts before `b`.
fn key_sorts_before(a: &Key, b: &Key) -> (before: bool)
    ensures
        before == key_before(a@, b@),
{
    if text::sorts_before(a.scope, b.scope) {
        true
    } else if !text::same_text(a.scope, b.scope) {
        false
    } else if text::sorts_before(a.ty_name, b.ty_name) {
        true
    } else {
        text::same_text(a.ty_name, b.ty_name) && text::sorts_before(a.name, b.name)
    }
}

/// Whether the registration at `i` is kept.
fn is_kept(keys: &[(Key, Origin)], latest_per_crate: bool, i: usize) -> (kept: bool)
    requires
        i < keys@.len(),
    ensures
        kept == survives(entries(keys@), latest_per_crate, i as int),
{
    if !latest_per_crate {
        return true;
    }
    let mine = keys[i].1.version();
    let mut j: usize = 0;
    while j < keys.len()
        invariant
            i < keys@.len(),
            j <= keys@.len(),
            latest_per_crate,
            mine@ == entries(keys@)[i as int].1.numbers(),
            forall|k: int|
                0 <= k < j && (#[trigger] entries(keys@)[k]).0 == entries(keys@)[i as int].0
                    && entries(keys@)[k].1.crate_name == entries(keys@)[i as int].1.crate_name ==> !version::older(
                    entries(keys@)[i as int].1.numbers(),
                    entries(keys@)[k].1.numbers(),
                ),
        decreases keys@.len() - j,
    {
        if keys_agree(&keys[j].0, &keys[i].0) && text::same_text(
            keys[j].1.crate_name,
            keys[i].1.crate_name,
        ) && mine.is_older_than(&keys[j].1.version()) {
            assert(entries(keys@)[j as int].0 == entries(keys@)[i as int].0);
            return false;
        }
        j += 1;
    }
    true
}

/// Whether the registration at `i` sorts before the one at `j`.
fn sorts_ahead(keys: &[(Key, Origin)], latest_per_crate: bool, i: usize, j: usize) -> (before: bool)
    requires
        i < keys@.len(),
        j < keys@.len(),
    ensures
        before == keyed_before(entries(keys@), latest_per_crate, i as int, j as int),
{
    if key_sorts_before(&keys[i].0, &keys[j].0) {
        return true;
    }
    if !keys_agree(&keys[i].0, &keys[j].0) {
        return false;
    }
    if latest_per_crate && !text::same_text(keys[i].1.crate_name, keys[j].1.crate_name) {
        text::sorts_before(keys[i].1.crate_name, keys[j].1.crate_name)
    } else {
        i < j
    }
}

/// Which registrations are kept.
fn kept_marks(keys: &[(Key, Origin)], latest_per_crate: bool) -> (kept: Vec<bool>)
    ensures
        kept@.len() == keys@.len(),
        forall|i: int| 0 <= i < kept@.len() ==> kept@[i] == survives(entries(keys@), latest_per_crate, i),
{
    let mut kept: Vec<bool> = Vec::new();
    let mut i: usize = 0;
    while i < keys.len()
        invariant
            i <= keys@.len(),
            kept@.len() == i,
            forall|k: int| 0 <= k < i ==> kept@[k] == survives(entries(keys@), latest_per_crate, k),
        decreases keys@.len() - i,
    {
        kept.push(is_kept(keys, latest_per_crate, i));
        i += 1;
    }
    kept
}

/// The registrations kept that share the key of the one at `i`.
fn sharers_of(
    keys: &[(Key, Origin)],
    latest_per_crate: bool,
    kept: &Vec<bool>,
    i: usize,
) -> (sharers: Vec<usize>)
    requires
        i < keys@.len(),
        kept@.len() == keys@.len(),
        forall|k: int| 0 <= k < kept@.len() ==> kept@[k] == survives(entries(keys@), latest_per_crate, k),
    ensures
        sharers@.no_duplicates(),
        forall|p: int|
            0 <= p < sharers@.len() ==> #[trigger] sharers@[p] < keys@.len() && sharer(
                entries(keys@),
                latest_per_crate,
                i as int,
                sharers@[p] as int,
            ),
        forall|j: int| #[trigger]
            sharer(entries(keys@), latest_per_crate, i as int, j) ==> sharers@.contains(j as usize),
{
    let mut sharers: Vec<usize> = Vec::new();
    let mut j: usize = 0;
    while j < keys.len()
        invariant
            i < keys@.len(),
            j <= keys@.len(),
            kept@.len() == keys@.len(),
            forall|k: int|
                0 <= k < kept@.len() ==> kept@[k] == survives(entries(keys@), latest_per_crate, k),
            sharers@.no_duplicates(),
            forall|p: int|
                0 <= p < sharers@.len() ==> #[trigger] sharers@[p] < j && sharer(
                    entries(keys@),
                    latest_per_crate,
                    i as int,
                    sharers@[p] as int,
                ),
            forall|k: int|
                k < j && #[trigger] sharer(entries(keys@), latest_per_crate, i as int, k)
                    ==> sharers@.contains(k as usize),
        decreases keys@.len() - j,
    {
        if kept[j] && keys_agree(&keys[j].0, &keys[i].0) {
            let ghost had = sharers@;
            sharers.push(j);
            proof {
                assert forall|k: int|
                    k < j + 1 && #[trigger] sharer(entries(keys@), latest_per_crate, i as int, k) implies
                    sharers@.contains(k as usize) by {
                    if k < j {
                        assert(had.contains(k as usize));
                        let p = choose|p: int| 0 <= p < had.len() && had[p] == k as usize;
                        assert(sharers@[p] == k as usize);
                    } else {
                        assert(sharers@[had.len() as int] == k as usize);
                    }
                }
            }
        }
        j += 1;
    }
    sharers
}

/// The name the registration at `i` is reported under.
fn reported_name(
    keys: &[(Key, Origin)],
    latest_per_crate: bool,
    kept: &Vec<bool>,
    i: usize,
) -> (name: String)
    requires
        i < keys@.len(),
        kept@.len() == keys@.len(),
        forall|k: int| 0 <= k < kept@.len() ==> kept@[k] == survives(entries(keys@), latest_per_crate, k),
        survives(entries(keys@), latest_per_crate, i as int),
    ensures
        name@ == resolved_name(entries(keys@), latest_per_crate, i as int),
{
    let sharers = sharers_of(keys, latest_per_crate, kept, i);
    let ghost g = i as int;
    assert(sharer(entries(keys@), latest_per_crate, g, g));
    assert(sharers@.contains(i));
    let name = keys[i].0.name;
    if sharers.len() == 1 {
        assert forall|j: int| #[trigger] sharer(entries(keys@), latest_per_crate, g, j) implies j == g by {
            assert(sharers@.contains(j as usize));
        }
        return name.to_owned();
    }
    assert(!stands_alone(entries(keys@), latest_per_crate, g)) by {
        assert(sharers@[0] != sharers@[1]);
        assert(sharer(entries(keys@), latest_per_crate, g, sharers@[0] as int));
        assert(sharer(entries(keys@), latest_per_crate, g, sharers@[1] as int));
    }
    let mut all_differ: bool = true;
    let mut all_same: bool = true;
    let mut a: usize = 0;
    while a < sharers.len()
        invariant
            a <= sharers@.len(),
            i < keys@.len(),
            forall|p: int| 0 <= p < sharers@.len() ==> #[trigger] sharers@[p] < keys@.len(),
            all_same == forall|p: int|
                0 <= p < a ==> keys@[#[trigger] sharers@[p] as int].1.crate_name@
                    == entries(keys@)[i as int].1.crate_name,
            all_differ == forall|p: int, q: int|
                #![trigger sharers@[p], sharers@[q]]
                0 <= p < q < sharers@.len() && p < a ==> entries(keys@)[sharers@[p] as int].1.crate_name
                    != entries(keys@)[sharers@[q] as int].1.crate_name,
        decreases sharers@.len() - a,
    {
        if !text::same_text(keys[sharers[a]].1.crate_name, keys[i].1.crate_name) {
            all_same = false;
        }
        let mut b: usize = a + 1;
        let ghost so_far = all_differ;
        while b < sharers.len()
            invariant
                a < b <= sharers@.len(),
                forall|p: int| 0 <= p < sharers@.len() ==> #[trigger] sharers@[p] < keys@.len(),
                all_differ == (so_far && forall|q: int|
                    a < q < b ==> entries(keys@)[sharers@[a as int] as int].1.crate_name
                        != keys@[#[trigger] sharers@[q] as int].1.crate_name@),
            decreases sharers@.len() - b,
        {
            if text::same_text(keys[sharers[a]].1.crate_name, keys[sharers[b]].1.crate_name) {
                all_differ = false;
            }
            b += 1;
        }
        a += 1;
    }
    proof {
        assert(all_differ == crates_differ(entries(keys@), latest_per_crate, g)) by {
            if all_differ {
                assert forall|j: int, k: int|
                    #![trigger sharer(entries(keys@), latest_per_crate, g, j), sharer(entries(keys@), latest_per_crate, g, k)]
                    sharer(entries(keys@), latest_per_crate, g, j) && sharer(entries(keys@), latest_per_crate, g, k)
                        && j != k implies entries(keys@)[j].1.crate_name != entries(keys@)[k].1.crate_name by {
                    assert(sharers@.contains(j as usize));
                    assert(sharers@.contains(k as usize));
                    let p = choose|p: int| 0 <= p < sharers@.len() && sharers@[p] == j as usize;
                    let q = choose|q: int| 0 <= q < sharers@.len() && sharers@[q] == k as usize;
                    assert(p != q);
                    if p < q {
                        assert(entries(keys@)[sharers@[p] as int].1.crate_name
                            != entries(keys@)[sharers@[q] as int].1.crate_name);
                    } else {
                        assert(entries(keys@)[sharers@[q] as int].1.crate_name
                            != entries(keys@)[sharers@[p] as int].1.crate_name);
                    }
                }
            } else {
                let (p, q) = choose|p: int, q: int|
                    #![trigger sharers@[p], sharers@[q]]
                    0 <= p < q < sharers@.len() && entries(keys@)[sharers@[p] as int].1.crate_name
                        == entries(keys@)[sharers@[q] as int].1.crate_name;
                assert(sharer(entries(keys@), latest_per_crate, g, sharers@[p] as int));
                assert(sharer(entries(keys@), latest_per_crate, g, sharers@[q] as int));
                assert(sharers@[p] != sharers@[q]);
            }
        }
        assert(all_same == one_crate(entries(keys@), latest_per_crate, g)) by {
            if all_same {
                assert forall|j: int|
                    #![trigger sharer(entries(keys@), latest_per_crate, g, j)]
                    sharer(entries(keys@), latest_per_crate, g, j) implies entries(keys@)[j].1.crate_name
                    == entries(keys@)[g].1.crate_name by {
                    assert(sharers@.contains(j as usize));
                    let p = choose|p: int| 0 <= p < sharers@.len() && sharers@[p] == j as usize;
                    assert(entries(keys@)[sharers@[p] as int].1.crate_name == entries(keys@)[g].1.crate_name);
                }
            } else {
                let p = choose|p: int|
                    0 <= p < sharers@.len() && keys@[#[trigger] sharers@[p] as int].1.crate_name@
                        != entries(keys@)[g].1.crate_name;
                assert(sharer(entries(keys@), latest_per_crate, g, sharers@[p] as int));
            }
        }
    }
    let mut suffix: String = if all_differ {
        keys[i].1.crate_name.to_owned()
    } else if all_same {
        keys[i].1.crate_version.to_owned()
    } else {
        let mut both = keys[i].1.crate_name.to_owned();
        both.append("-");
        both.append(keys[i].1.crate_version);
        both
    };
    let mut full = name.to_owned();
    if !suffix.as_str().is_empty() {
        full.append("@");
        full.append(suffix.as_str());
    }
    full
}

/// Decide what to keep of `items` and what to call it.
///
/// `keys` says of each item what it is and where it came from. Every version
/// is kept, told apart by where it came from; `latest_per_crate` narrows that
/// to the newest per crate. Registrations of one crate at equal versions are
/// all kept: that is not one copy replacing another but the same name
/// registered twice, for a duplicate check to find.
///
/// The survivors come out in the order of `items`; callers sort afterwards.
pub fn resolve_versions<T: View>(
    items: &[&'static T],
    keys: &[(Key, Origin)],
    latest_per_crate: bool,
) -> (out: Vec<Named<T>>)
    requires
        items@.len() == keys@.len(),
    ensures
        named_views(out@) == resolved(reg_views(items@), entries(keys@), latest_per_crate),
{
    let kept = kept_marks(keys, latest_per_crate);
    let ghost v = reg_views(items@);
    let ghost e = entries(keys@);
    let ghost all = Seq::new(e.len(), |i: int| i);
    let ghost keeps = |i: int| survives(e, latest_per_crate, i);
    let mut out: Vec<Named<T>> = Vec::new();
    let mut i: usize = 0;
    proof {
        reveal(Seq::filter);
        assert(all.take(0) =~= Seq::<int>::empty());
    }
    while i < keys.len()
        invariant
            i <= keys@.len(),
            items@.len() == keys@.len(),
            kept@.len() == keys@.len(),
            v == reg_views(items@),
            e == entries(keys@),
            all == Seq::new(e.len(), |i: int| i),
            keeps == (|i: int| survives(e, latest_per_crate, i)),
            forall|k: int| 0 <= k < kept@.len() ==> kept@[k] == survives(e, latest_per_crate, k),
            out@.len() == all.take(i as int).filter(keeps).len(),
            forall|k: int|
                0 <= k < out@.len() ==> (#[trigger] out@[k])@ == named_as(
                    v,
                    e,
                    latest_per_crate,
                    all.take(i as int).filter(keeps)[k],
                ),
        decreases keys@.len() - i,
    {
        proof {
            lists::lemma_filter_step(all, keeps, i as int);
        }
        if kept[i] {
            out.push(
                Named {
                    name: reported_name(keys, latest_per_crate, &kept, i),
                    reg: items[i],
                    origin: keys[i].1,
                },
            );
        }
        i += 1;
    }
    assert(all.take(i as int) =~= all);
    assert(named_views(out@) =~= resolved(v, e, latest_per_crate));
    out
}

/// Survivors keep the order they came in: what comes out is exactly what is
/// kept, an earlier one before a later one.
pub proof fn law_survivors_keep_their_order(
    keys: Seq<(KeyView, OriginView)>,
    latest_per_crate: bool,
)
    ensures
        forall|i: int| #[trigger]
            resolution_order(keys, latest_per_crate).contains(i) <==> 0 <= i < keys.len()
                && survives(keys, latest_per_crate, i),
        forall|j: int, k: int|
            #![trigger resolution_order(keys, latest_per_crate)[j], resolution_order(keys, latest_per_crate)[k]]
            0 <= j < k < resolution_order(keys, latest_per_crate).len() ==> resolution_order(
                keys,
                latest_per_crate,
            )[j] < resolution_order(keys, latest_per_crate)[k],
        !latest_per_crate ==> resolution_order(keys, latest_per_crate) == Seq::new(
            keys.len(),
            |i: int| i,
        ),
{
    let all = Seq::new(keys.len(), |i: int| i);
    let keeps = |i: int| survives(keys, latest_per_crate, i);
    let order = resolution_order(keys, latest_per_crate);
    let at = reorder::lemma_filter_positions(all, keeps);
    reorder::lemma_filter_contains(all, keeps);
    assert forall|i: int| #[trigger] order.contains(i) <==> 0 <= i < keys.len() && survives(
        keys,
        latest_per_crate,
        i,
    ) by {
        if 0 <= i < keys.len() {
            assert(all[i] == i);
        }
        assert(order.contains(i) <==> all.contains(i) && keeps(i));
    }
    assert forall|j: int, k: int|
        #![trigger order[j], order[k]]
        0 <= j < k < order.len() implies order[j] < order[k] by {
        assert(order[j] == at[j] && order[k] == at[k]);
        assert(at[j] < at[k]);
    }
    if !latest_per_crate {
        lists::lemma_all_kept(all, keeps, all.len() as int);
        assert(all.take(all.len() as int) =~= all);
    }
}

/// The keys and origins of what is kept, in the order they came in.
fn surviving_keys(keys: &[(Key, Origin)], latest_per_crate: bool) -> (out: Vec<(Key, Origin)>)
    ensures
        entries(out@) == lists::picked(
            entries(keys@),
            resolution_order(entries(keys@), latest_per_crate),
        ),
{
    let kept = kept_marks(keys, latest_per_crate);
    let ghost e = entries(keys@);
    let ghost all = Seq::new(e.len(), |i: int| i);
    let ghost keeps = |i: int| survives(e, latest_per_crate, i);
    let mut out: Vec<(Key, Origin)> = Vec::new();
    let mut i: usize = 0;
    proof {
        reveal(Seq::filter);
        assert(all.take(0) =~= Seq::<int>::empty());
    }
    while i < keys.len()
        invariant
            i <= keys@.len(),
            kept@.len() == keys@.len(),
            e == entries(keys@),
            all == Seq::new(e.len(), |i: int| i),
            keeps == (|i: int| survives(e, latest_per_crate, i)),
            forall|k: int| 0 <= k < kept@.len() ==> kept@[k] == survives(e, latest_per_crate, k),
            out@.len() == all.take(i as int).filter(keeps).len(),
            forall|k: int|
                0 <= k < out@.len() ==> entries(out@)[k] == e[#[trigger] all.take(i as int).filter(
                    keeps,
                )[k]],
        decreases keys@.len() - i,
    {
        let ghost had = all.take(i as int).filter(keeps);
        let ghost had_out = out@;
        proof {
            lists::lemma_filter_step(all, keeps, i as int);
        }
        if kept[i] {
            out.push((keys[i].0, keys[i].1));
        }
        proof {
            let now = all.take(i + 1).filter(keeps);
            assert forall|k: int| 0 <= k < out@.len() implies entries(out@)[k] == e[#[trigger] now[k]] by {
                if k < had.len() {
                    assert(now[k] == had[k]);
                    assert(entries(had_out)[k] == e[had[k]]);
                }
            }
        }
        i += 1;
    }
    assert(all.take(i as int) =~= all);
    assert(entries(out@) =~= lists::picked(e, resolution_order(e, latest_per_crate)));
    out
}

/// Sorting by key what was kept in order gives what is kept, sorted by key.
proof fn lemma_sorted_afterwards<V>(
    items: Seq<V>,
    keys: Seq<(KeyView, OriginView)>,
    latest_per_crate: bool,
    order: Seq<int>,
)
    requires
        order::is_arrangement(
            order,
            resolution_order(keys, latest_per_crate).len() as int,
            |i: int| true,
            |i: int, j: int|
                keyed_before(
                    lists::picked(keys, resolution_order(keys, latest_per_crate)),
                    latest_per_crate,
                    i,
                    j,
                ),
        ),
    ensures
        lists::picked(resolved(items, keys, latest_per_crate), order) == arranged(
            items,
            keys,
            latest_per_crate,
        ),
{
    let n = keys.len() as int;
    let all = Seq::new(keys.len(), |i: int| i);
    let keeps = |i: int| survives(keys, latest_per_crate, i);
    let first = resolution_order(keys, latest_per_crate);
    let at = reorder::lemma_filter_positions(all, keeps);
    let sub = lists::picked(keys, first);
    let after = |i: int, j: int| keyed_before(sub, latest_per_crate, i, j);
    let before = |i: int, j: int| keyed_before(keys, latest_per_crate, i, j);
    let whole = |i: int| true;
    assert forall|k: int| 0 <= k < first.len() implies #[trigger] first[k] == at[k] && 0 <= at[k]
        < n && keeps(at[k]) by {}
    let both = lists::picked(first, order);
    assert(order::is_arrangement(both, n, keeps, before)) by {
        assert forall|a: int, b: int|
            #![trigger both[a], both[b]]
            0 <= a < b < both.len() implies before(both[a], both[b]) by {
            let (x, y) = (order[a], order[b]);
            assert(after(x, y));
            assert(sub[x] == keys[first[x]] && sub[y] == keys[first[y]]);
            if x < y {
                assert(at[x] < at[y]);
            }
        }
        assert forall|a: int|
            #![trigger both[a]]
            0 <= a < both.len() implies 0 <= both[a] < n && keeps(both[a]) by {
            assert(0 <= order[a] < first.len());
        }
        assert forall|i: int| 0 <= i < n && #[trigger] keeps(i) implies both.contains(i) by {
            assert(keeps(all[i]));
            assert(at.contains(i));
            let k = choose|k: int| 0 <= k < at.len() && at[k] == i;
            assert(whole(k));
            assert(order.contains(k));
            let m = choose|m: int| 0 <= m < order.len() && order[m] == k;
            assert(both[m] == i);
        }
    }
    lemma_keyed_before(keys, latest_per_crate);
    order::lemma_arrangement_unique(both, n, keeps, before);
    assert(lists::picked(resolved(items, keys, latest_per_crate), order) =~= arranged(
        items,
        keys,
        latest_per_crate,
    )) by {
        assert forall|k: int| 0 <= k < order.len() implies 0 <= #[trigger] order[k]
            < first.len() by {}
    }
}

/// Decide what to keep of `items` and what to call it, and sort it by key.
///
/// The order registrations arrive in means nothing. Whatever depends on the
/// order of what is kept works on this one.
pub(crate) fn resolve_sorted<T: View>(
    items: &[&'static T],
    keys: &[(Key, Origin)],
    latest_per_crate: bool,
) -> (out: Vec<Named<T>>)
    requires
        items@.len() == keys@.len(),
    ensures
        named_views(out@) == arranged(reg_views(items@), entries(keys@), latest_per_crate),
{
    let named = resolve_versions(items, keys, latest_per_crate);
    let kept_keys = surviving_keys(keys, latest_per_crate);
    let sub = kept_keys.as_slice();
    let marks = lists::all_marked(named.len());
    let ghost e = entries(sub@);
    let ghost before = |i: int, j: int| keyed_before(e, latest_per_crate, i, j);
    proof {
        assert(named_views(named@).len() == named.len());
        assert(e.len() == named.len());
        lemma_keyed_before(e, latest_per_crate);
    }
    let comes_before = |i: usize, j: usize| -> (b: bool)
        requires
            sub@.len() > i,
            sub@.len() > j,
        ensures
            b == keyed_before(entries(sub@), latest_per_crate, i as int, j as int),
    {
        sorts_ahead(sub, latest_per_crate, i, j)
    };
    let order = order::arrange(&marks, comes_before, Ghost(before));
    proof {
        order::lemma_arrangement_same_marks(
            order::ints(order@),
            named.len() as int,
            |i: int| marks@[i],
            |i: int| true,
            before,
        );
        lemma_sorted_afterwards(
            reg_views(items@),
            entries(keys@),
            latest_per_crate,
            order::ints(order@),
        );
    }
    lists::pick(&named, &order)
}

/// What tells a registration apart is of one sort for all that share a key.
proof fn lemma_sharers_agree(
    keys: Seq<(KeyView, OriginView)>,
    latest_per_crate: bool,
    i: int,
    j: int,
)
    requires
        0 <= i < keys.len(),
        survives(keys, latest_per_crate, i),
        sharer(keys, latest_per_crate, i, j),
    ensures
        crates_differ(keys, latest_per_crate, i) ==> crates_differ(keys, latest_per_crate, j),
        one_crate(keys, latest_per_crate, i) ==> one_crate(keys, latest_per_crate, j),
{
    assert forall|k: int| #[trigger] sharer(keys, latest_per_crate, j, k) implies sharer(
        keys,
        latest_per_crate,
        i,
        k,
    ) by {}
    if crates_differ(keys, latest_per_crate, i) {
        assert forall|k: int, m: int|
            #![trigger sharer(keys, latest_per_crate, j, k), sharer(keys, latest_per_crate, j, m)]
            sharer(keys, latest_per_crate, j, k) && sharer(keys, latest_per_crate, j, m) && k
                != m implies keys[k].1.crate_name != keys[m].1.crate_name by {
            assert(sharer(keys, latest_per_crate, i, k) && sharer(keys, latest_per_crate, i, m));
        }
    }
}

/// Registrations of one key that are kept are reported under different names:
/// whenever they all come from different crates, and otherwise whenever the
/// two differ in how their crate and version are written together.
pub proof fn law_namesakes_are_told_apart(
    keys: Seq<(KeyView, OriginView)>,
    latest_per_crate: bool,
    i: int,
    j: int,
)
    requires
        0 <= i < keys.len(),
        i != j,
        survives(keys, latest_per_crate, i),
        sharer(keys, latest_per_crate, i, j),
        crates_differ(keys, latest_per_crate, i) || keys[i].1.crate_name + "-"@
            + keys[i].1.crate_version != keys[j].1.crate_name + "-"@ + keys[j].1.crate_version,
    ensures
        resolved_name(keys, latest_per_crate, i) != resolved_name(keys, latest_per_crate, j),
{
    assert(sharer(keys, latest_per_crate, i, i) && sharer(keys, latest_per_crate, j, i));
    lemma_sharers_agree(keys, latest_per_crate, i, j);
    lemma_sharers_agree(keys, latest_per_crate, j, i);
    let name = keys[i].0.name;
    let a = distinguishing(keys, latest_per_crate, i);
    let b = distinguishing(keys, latest_per_crate, j);
    assert(a != b);
    let (x, y) = (name + "@"@ + a, name + "@"@ + b);
    reveal_strlit("@");
    assert(x.skip(name.len() as int + 1) =~= a);
    assert(y.skip(name.len() as int + 1) =~= b);
}

} // verus!
