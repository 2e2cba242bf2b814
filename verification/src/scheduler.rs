//! Round-robin over a set of benchmarks, one sample each per round.
//!
//! Run in sequence, benchmarks sample the machine at different times, and
//! their numbers are not comparable once it has drifted. Interleaved, every
//! benchmark's samples spread across the whole session. Each round visits
//! everything still running exactly once, in a fresh random order.

use crate::lists;
use crate::reorder;
use vstd::prelude::*;

verus! {

/// One step of the xorshift generator.
pub open spec fn xorshift(x: u64) -> u64 {
    let a = x ^ (x << 13u64);
    let b = a ^ (a >> 7u64);
    b ^ (b << 17u64)
}

/// Zero is the only seed from which xorshift yields zero, so a nonzero seed
/// never gets stuck.
pub proof fn law_xorshift_never_sticks(x: u64)
    requires
        x != 0,
    ensures
        xorshift(x) != 0,
{
    let a = x ^ (x << 13u64);
    assert(a != 0) by (bit_vector)
        requires
            x != 0,
            a == x ^ (x << 13u64),
    ;
    let b = a ^ (a >> 7u64);
    assert(b != 0) by (bit_vector)
        requires
            a != 0,
            b == a ^ (a >> 7u64),
    ;
    let c = b ^ (b << 17u64);
    assert(c != 0) by (bit_vector)
        requires
            b != 0,
            c == b ^ (b << 17u64),
    ;
}

/// One step of the xorshift generator.
pub fn step(x: u64) -> (out: u64)
    ensures
        out == xorshift(x),
{
    let a: u64 = x ^ (x << 13u64);
    let b: u64 = a ^ (a >> 7u64);
    b ^ (b << 17u64)
}

/// `s` with what stands at `i` and `j` exchanged.
pub open spec fn swapped(s: Seq<usize>, i: int, j: int) -> Seq<usize> {
    s.update(i, s[j]).update(j, s[i])
}

/// Fisher-Yates: exchange what stands at `i` with a random one at or below
/// it, and go on below. Gives the new order and the generator's new state.
pub open spec fn shuffled(seed: u64, s: Seq<usize>, i: int) -> (Seq<usize>, u64)
    decreases i,
{
    if i <= 0 {
        (s, seed)
    } else {
        let r = xorshift(seed);
        shuffled(r, swapped(s, i, (r % (i as u64 + 1) as u64) as int), i - 1)
    }
}

/// Exchanging two items keeps all of them.
proof fn lemma_swapped(s: Seq<usize>, i: int, j: int)
    requires
        0 <= i < s.len(),
        0 <= j < s.len(),
    ensures
        reorder::reordered(s, swapped(s, i, j)),
{
    broadcast use vstd::seq_lib::group_to_multiset_ensures;

    let t = swapped(s, i, j);
    vstd::seq_lib::to_multiset_update(s, i, s[j]);
    vstd::seq_lib::to_multiset_update(s.update(i, s[j]), j, s[i]);
    assert(t.to_multiset() =~= s.to_multiset()) by {
        if i == j {
            assert(t =~= s);
        } else {
            assert(s.update(i, s[j])[j] == s[j]);
        }
    }
}

/// Shuffling keeps everything: what comes out is what went in, in another
/// order.
pub proof fn law_shuffling_keeps_everyone(seed: u64, s: Seq<usize>, i: int)
    requires
        i < s.len(),
        s.len() <= u64::MAX,
    ensures
        reorder::reordered(s, shuffled(seed, s, i).0),
    decreases i,
{
    if i > 0 {
        let r = xorshift(seed);
        let j = (r % (i as u64 + 1) as u64) as int;
        lemma_swapped(s, i, j);
        law_shuffling_keeps_everyone(r, swapped(s, i, j), i - 1);
    }
}

/// Who is still running, and in what order this round visits them.
pub struct Scheduler {
    tasks: usize,
    live: Vec<usize>,
    seed: u64,
}

/// The values of a [`Scheduler`].
#[verifier::ext_equal]
pub struct SchedulerView {
    pub tasks: nat,
    pub live: Seq<usize>,
    pub seed: u64,
}

impl View for Scheduler {
    type V = SchedulerView;

    closed spec fn view(&self) -> SchedulerView {
        SchedulerView { tasks: self.tasks as nat, live: self.live@, seed: self.seed }
    }
}

impl SchedulerView {
    /// Whether those still running are tasks, each of them once.
    pub open spec fn well_formed(self) -> bool {
        &&& self.live.no_duplicates()
        &&& forall|k: int| 0 <= k < self.live.len() ==> (#[trigger] self.live[k]) < self.tasks
    }

    /// Whether task `t` is still running.
    pub open spec fn running(self, t: usize) -> bool {
        self.live.contains(t)
    }

    /// The next round's order.
    pub open spec fn next_round(self) -> SchedulerView {
        let (live, seed) = shuffled(self.seed, self.live, self.live.len() - 1);
        SchedulerView { live, seed, ..self }
    }

    /// What is left once those that finished are retired.
    pub open spec fn without(self, finished: Seq<bool>) -> SchedulerView {
        SchedulerView { live: self.live.filter(|t: usize| !finished[t as int]), ..self }
    }
}

impl Scheduler {
    /// Schedule `tasks` benchmarks, all of them running.
    ///
    /// The lowest bit of the seed is set: zero is a fixed point of xorshift,
    /// and would leave every round in the same order.
    pub fn new(seed: u64, tasks: usize) -> (s: Scheduler)
        ensures
            s@.well_formed(),
            s@.tasks == tasks,
            s@.live == Seq::new(tasks as nat, |i: int| i as usize),
            s@.seed == seed | 1,
            s@.seed != 0,
    {
        let mut live: Vec<usize> = Vec::new();
        let ghost all = Seq::new(tasks as nat, |i: int| i as usize);
        let mut i: usize = 0;
        while i < tasks
            invariant
                i <= tasks,
                all == Seq::new(tasks as nat, |i: int| i as usize),
                live@ == all.take(i as int),
            decreases tasks - i,
        {
            live.push(i);
            assert(all.take(i + 1) =~= all.take(i as int).push(i));
            i += 1;
        }
        assert(all.take(i as int) =~= all);
        assert(seed | 1 != 0) by (bit_vector);
        Scheduler { tasks, live, seed: seed | 1 }
    }

    /// The next random number.
    pub fn next_rand(&mut self) -> (r: u64)
        ensures
            r == xorshift(old(self)@.seed),
            final(self)@ == (SchedulerView { seed: r, ..old(self)@ }),
    {
        self.seed = step(self.seed);
        self.seed
    }

    /// Whether everything has finished.
    pub fn is_done(&self) -> (done: bool)
        ensures
            done == (self@.live.len() == 0),
    {
        self.live.len() == 0
    }

    /// Put those still running into a fresh random order, Fisher-Yates, and
    /// say what it is: each of them is to be polled once, in this order.
    pub fn begin_round(&mut self) -> (order: Vec<usize>)
        requires
            old(self)@.well_formed(),
        ensures
            final(self)@ == old(self)@.next_round(),
            final(self)@.well_formed(),
            order@ == final(self)@.live,
            reorder::reordered(old(self)@.live, order@),
    {
        let ghost before = self@;
        let n: usize = self.live.len();
        let mut i: usize = n;
        if n > 0 {
            i = n - 1;
        }
        while i > 0
            invariant
                n == before.live.len(),
                n == self.live.len(),
                self.tasks == before.tasks,
                n > 0 ==> i < n,
                n == 0 ==> i == 0,
                shuffled(self.seed, self.live@, i as int) == shuffled(
                    before.seed,
                    before.live,
                    n - 1,
                ),
            decreases i,
        {
            let r = self.next_rand();
            let j: usize = (r % (i as u64 + 1)) as usize;
            assert(j <= i);
            let a = self.live[i];
            let b = self.live[j];
            let ghost had = self.live@;
            self.live[i] = b;
            self.live[j] = a;
            assert(self.live@ =~= swapped(had, i as int, j as int));
            i -= 1;
        }
        proof {
            if n > 0 {
                law_shuffling_keeps_everyone(before.seed, before.live, n - 1);
            }
            lemma_reordered_well_formed(before, self@);
        }
        let mut order: Vec<usize> = Vec::new();
        let mut k: usize = 0;
        while k < n
            invariant
                k <= n,
                n == self.live.len(),
                order@ == self.live@.take(k as int),
            decreases n - k,
        {
            order.push(self.live[k]);
            assert(self.live@.take(k + 1) =~= self.live@.take(k as int).push(
                self.live@[k as int],
            ));
            k += 1;
        }
        assert(self.live@.take(k as int) =~= self.live@);
        order
    }

    /// Retire those that finished, as `finished` says of each task.
    pub fn end_round(&mut self, finished: &Vec<bool>)
        requires
            old(self)@.well_formed(),
            finished.len() == old(self)@.tasks,
        ensures
            final(self)@ == old(self)@.without(finished@),
            final(self)@.well_formed(),
            forall|t: usize| #[trigger]
                final(self)@.running(t) <==> old(self)@.running(t) && !finished@[t as int],
    {
        let ghost all = self.live@;
        let ghost keep = |t: usize| !finished@[t as int];
        let mut left: Vec<usize> = Vec::new();
        let mut k: usize = 0;
        proof {
            reveal(Seq::filter);
            assert(all.take(0) =~= Seq::<usize>::empty());
            assert(left@ =~= all.take(0).filter(keep));
        }
        while k < self.live.len()
            invariant
                k <= self.live.len(),
                all == self.live@,
                finished.len() == self.tasks,
                forall|k: int| 0 <= k < all.len() ==> (#[trigger] all[k]) < self.tasks,
                keep == (|t: usize| !finished@[t as int]),
                left@ == all.take(k as int).filter(keep),
            decreases self.live.len() - k,
        {
            proof {
                lists::lemma_filter_step(all, keep, k as int);
            }
            let t = self.live[k];
            if !finished[t] {
                left.push(t);
            }
            k += 1;
        }
        proof {
            assert(all.take(k as int) =~= all);
            let at = reorder::lemma_filter_positions(all, keep);
            assert forall|i: int, j: int|
                0 <= i < left@.len() && 0 <= j < left@.len() && i != j implies left@[i]
                != left@[j] by {
                assert(left@[i] == all[at[i]] && left@[j] == all[at[j]]);
                if i < j {
                    assert(at[i] < at[j]);
                } else {
                    assert(at[j] < at[i]);
                }
            }
            assert forall|k: int| 0 <= k < left@.len() implies (#[trigger] left@[k])
                < self.tasks by {
                assert(left@[k] == all[at[k]]);
            }
            reorder::lemma_filter_contains(all, keep);
        }
        self.live = left;
    }
}

/// Another order of the same tasks is as well formed.
proof fn lemma_reordered_well_formed(a: SchedulerView, b: SchedulerView)
    requires
        a.well_formed(),
        a.tasks == b.tasks,
        reorder::reordered(a.live, b.live),
    ensures
        b.well_formed(),
{
    reorder::lemma_reordered_contains(a.live, b.live);
    a.live.lemma_multiset_has_no_duplicates();
    b.live.lemma_multiset_has_no_duplicates_conv();
    assert forall|k: int| 0 <= k < b.live.len() implies (#[trigger] b.live[k]) < b.tasks by {
        assert(b.live.contains(b.live[k]));
        let i = choose|i: int| 0 <= i < a.live.len() && a.live[i] == b.live[k];
    }
}

/// Every round visits everything still running exactly once.
pub proof fn law_a_round_visits_each_once(s: SchedulerView, t: usize)
    requires
        s.well_formed(),
        s.live.len() <= u64::MAX,
    ensures
        s.next_round().well_formed(),
        s.next_round().live.len() == s.live.len(),
        s.next_round().running(t) <==> s.running(t),
{
    if s.live.len() > 0 {
        law_shuffling_keeps_everyone(s.seed, s.live, s.live.len() - 1);
    }
    lemma_reordered_well_formed(s, s.next_round());
    reorder::lemma_reordered_contains(s.live, s.next_round().live);
}

/// Every state comes after some state: xorshift leaves no number out.
pub proof fn law_xorshift_reaches_everything(r: u64) -> (x: u64)
    ensures
        xorshift(x) == r,
{
    let b = r ^ (r << 17u64) ^ (r << 34u64) ^ (r << 51u64);
    let a = b ^ (b >> 7u64) ^ (b >> 14u64) ^ (b >> 21u64) ^ (b >> 28u64) ^ (b >> 35u64) ^ (b
        >> 42u64) ^ (b >> 49u64) ^ (b >> 56u64) ^ (b >> 63u64);
    let x = a ^ (a << 13u64) ^ (a << 26u64) ^ (a << 39u64) ^ (a << 52u64);
    assert(x ^ (x << 13u64) == a) by (bit_vector)
        requires
            x == a ^ (a << 13u64) ^ (a << 26u64) ^ (a << 39u64) ^ (a << 52u64),
    ;
    assert(a ^ (a >> 7u64) == b) by (bit_vector)
        requires
            a == b ^ (b >> 7u64) ^ (b >> 14u64) ^ (b >> 21u64) ^ (b >> 28u64) ^ (b >> 35u64) ^ (b
                >> 42u64) ^ (b >> 49u64) ^ (b >> 56u64) ^ (b >> 63u64),
    ;
    assert(b ^ (b << 17u64) == r) by (bit_vector)
        requires
            b == r ^ (r << 17u64) ^ (r << 34u64) ^ (r << 51u64),
    ;
    x
}

/// What stands above `i` is no longer touched.
proof fn lemma_shuffled_keeps_above(seed: u64, s: Seq<usize>, i: int, k: int)
    requires
        i < k < s.len(),
        s.len() <= u64::MAX,
    ensures
        shuffled(seed, s, i).0.len() == s.len(),
        shuffled(seed, s, i).0[k] == s[k],
    decreases i,
{
    if i > 0 {
        let r = xorshift(seed);
        let j = (r % (i as u64 + 1) as u64) as int;
        lemma_shuffled_keeps_above(r, swapped(s, i, j), i - 1, k);
    }
}

/// No one's place is fixed: whoever is running, there is a state of the
/// generator from which the next round visits them last, the one who was last
/// before among them.
pub proof fn law_anyone_can_come_last(s: SchedulerView, k: int) -> (seed: u64)
    requires
        s.live.len() > 1,
        s.live.len() <= u64::MAX,
        0 <= k < s.live.len(),
    ensures
        (SchedulerView { seed, ..s }).next_round().live.last() == s.live[k],
{
    let i = s.live.len() - 1;
    let r = k as u64;
    let seed = law_xorshift_reaches_everything(r);
    let j = (r % (i as u64 + 1) as u64) as int;
    assert(j == k) by {
        vstd::arithmetic::div_mod::lemma_small_mod(k as nat, (i + 1) as nat);
    }
    let t = swapped(s.live, i, j);
    lemma_shuffled_keeps_above(r, t, i - 1, i);
    seed
}

} // verus!
