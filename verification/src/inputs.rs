//! The inputs of a round.

use vstd::prelude::*;

verus! {

/// Whether a generator, in some state of it, made an input.
pub open spec fn made_by<I, G: FnMut() -> I>(x: I) -> bool {
    exists|g: G| #[trigger] call_ensures(g, (), x)
}

/// Make a fresh batch of `unit` inputs, reusing what `xs` has allocated.
///
/// Whatever was left in `xs` is gone: every input of the batch comes from a
/// call of its own.
pub fn refill<I, G: FnMut() -> I>(make_input: &mut G, xs: &mut Vec<I>, unit: usize)
    requires
        forall|g: G| #[trigger] call_requires(g, ()),
    ensures
        final(xs)@.len() == unit,
        forall|k: int| 0 <= k < unit ==> made_by::<I, G>(#[trigger] final(xs)@[k]),
{
    xs.clear();
    let mut i: usize = 0;
    while i < unit
        invariant
            i <= unit,
            forall|g: G| #[trigger] call_requires(g, ()),
            xs@.len() == i,
            forall|k: int| 0 <= k < i ==> made_by::<I, G>(#[trigger] xs@[k]),
        decreases unit - i,
    {
        let ghost g = *make_input;
        let x = make_input();
        assert(call_ensures(g, (), x));
        xs.push(x);
        i += 1;
    }
}

/// Give one alternative its own copy of the round's inputs, reusing what `xs`
/// has allocated.
///
/// Every input is replaced outright, so what an alternative did to its copy
/// cannot reach the next one.
pub fn clone_into<I, C: Fn(&I) -> I>(master: &Vec<I>, xs: &mut Vec<I>, clone_input: &C)
    requires
        forall|k: int| 0 <= k < master@.len() ==> call_requires(*clone_input, (&master@[k],)),
    ensures
        final(xs)@.len() == master@.len(),
        forall|k: int|
            0 <= k < master@.len() ==> call_ensures(
                *clone_input,
                (&master@[k],),
                #[trigger] final(xs)@[k],
            ),
{
    xs.clear();
    let mut i: usize = 0;
    while i < master.len()
        invariant
            i <= master@.len(),
            forall|k: int| 0 <= k < master@.len() ==> call_requires(*clone_input, (&master@[k],)),
            xs@.len() == i,
            forall|k: int|
                0 <= k < i ==> call_ensures(*clone_input, (&master@[k],), #[trigger] xs@[k]),
        decreases master.len() - i,
    {
        xs.push(clone_input(&master[i]));
        i += 1;
    }
}

} // verus!
