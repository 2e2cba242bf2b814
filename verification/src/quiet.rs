//! Deciding what a quiesced benchmarking environment offers.
//!
//! A reservation sets one or more CPUs aside for benchmarking and advertises
//! them as a CPU list, either in the environment of one program or in a file
//! for the whole machine. Here the lists are read and written, and it is
//! decided what a reservation means for the running thread.

use crate::text;
use vstd::prelude::*;

verus! {

/// Environment variable naming the reserved CPU list, e.g. `"2"` or
/// `"2,5-7"`.
pub const CPUS_VAR: &'static str = "SCALING_BENCH_CPUS";

/// Set this to `1` to stop a benchmark pinning itself even when [`CPUS_VAR`]
/// is set.
pub const NO_PIN_VAR: &'static str = "SCALING_NO_PIN";

/// Where the reserved CPUs are recorded.
pub const CPUS_PATH: &'static str = "/run/quiet-bench.cpus";

/// What one comma-separated part of a CPU list says.
pub enum CpuPart {
    /// Nothing but white space.
    Blank,
    /// The CPUs from the first to the second.
    Range(nat, nat),
    /// A text that should have been a CPU number.
    Bad(Seq<char>),
    /// A range whose end is below its start.
    Descending(Seq<char>),
}

/// The CPU number a text spells.
pub open spec fn cpu_number(s: Seq<char>) -> Option<nat> {
    text::number_up_to(s, usize::MAX as nat)
}

/// What one part of a CPU list says, white space around it removed.
pub open spec fn cpu_part(raw: Seq<char>) -> CpuPart {
    let part = text::trimmed(raw);
    let dash = text::first_index(part, '-');
    if part.len() == 0 {
        CpuPart::Blank
    } else if dash < part.len() {
        let lo = text::trimmed(part.take(dash));
        let hi = text::trimmed(part.skip(dash + 1));
        match (cpu_number(lo), cpu_number(hi)) {
            (None, _) => CpuPart::Bad(lo),
            (_, None) => CpuPart::Bad(hi),
            (Some(a), Some(b)) => if b < a {
                CpuPart::Descending(part)
            } else {
                CpuPart::Range(a, b)
            },
        }
    } else {
        match cpu_number(part) {
            None => CpuPart::Bad(part),
            Some(a) => CpuPart::Range(a, a),
        }
    }
}

/// What is wrong with a CPU list.
#[derive(Debug, Clone, PartialEq, Eq)]
pub enum CpuListError {
    /// A text that should have been a CPU number.
    BadNumber(String),
    /// A range whose end is below its start.
    Descending(String),
    /// No CPU is named at all.
    Empty,
}

/// The values of a [`CpuListError`].
pub enum CpuListErrorView {
    BadNumber(Seq<char>),
    Descending(Seq<char>),
    Empty,
}

impl View for CpuListError {
    type V = CpuListErrorView;

    open spec fn view(&self) -> CpuListErrorView {
        match *self {
            CpuListError::BadNumber(s) => CpuListErrorView::BadNumber(s@),
            CpuListError::Descending(s) => CpuListErrorView::Descending(s@),
            CpuListError::Empty => CpuListErrorView::Empty,
        }
    }
}

/// The first thing wrong with the parts of a CPU list, if there is one.
pub open spec fn first_wrong(parts: Seq<Seq<char>>) -> Option<CpuListErrorView>
    decreases parts.len(),
{
    if parts.len() == 0 {
        None
    } else {
        match first_wrong(parts.drop_last()) {
            Some(e) => Some(e),
            None => match cpu_part(parts.last()) {
                CpuPart::Bad(s) => Some(CpuListErrorView::BadNumber(s)),
                CpuPart::Descending(s) => Some(CpuListErrorView::Descending(s)),
                _ => None,
            },
        }
    }
}

/// Whether one of `parts` names CPU `c`.
pub open spec fn parts_name(parts: Seq<Seq<char>>, c: nat) -> bool {
    exists|i: int|
        0 <= i < parts.len() && (match cpu_part(#[trigger] parts[i]) {
            CpuPart::Range(lo, hi) => lo <= c <= hi,
            _ => false,
        })
}

/// Whether a CPU list names CPU `c`.
pub open spec fn names_cpu(list: Seq<char>, c: nat) -> bool {
    parts_name(text::pieces(list, ','), c)
}

/// What is wrong with a CPU list, if anything is: the first part that says
/// nothing sensible, or that no part names a CPU.
pub open spec fn list_error(list: Seq<char>) -> Option<CpuListErrorView> {
    match first_wrong(text::pieces(list, ',')) {
        Some(e) => Some(e),
        None => if exists|c: nat| names_cpu(list, c) {
            None
        } else {
            Some(CpuListErrorView::Empty)
        },
    }
}

/// Whether `s` goes strictly upwards.
pub open spec fn increasing(s: Seq<usize>) -> bool {
    forall|i: int, j: int|
        #![trigger s[i], s[j]]
        0 <= i < j < s.len() ==> s[i] < s[j]
}

/// Whether `cpus` is exactly what a CPU list names, in order.
pub open spec fn lists_cpus(list: Seq<char>, cpus: Seq<usize>) -> bool {
    increasing(cpus) && forall|c: usize| #[trigger] cpus.contains(c) <==> names_cpu(list, c as nat)
}

/// Put `c` where it belongs in `sorted`, unless it is there.
fn insert_cpu(sorted: &mut Vec<usize>, c: usize)
    requires
        increasing(old(sorted)@),
    ensures
        increasing(final(sorted)@),
        forall|x: usize| #[trigger]
            final(sorted)@.contains(x) <==> old(sorted)@.contains(x) || x == c,
{
    let mut at: usize = sorted.len();
    while at > 0 && sorted[at - 1] > c
        invariant
            at <= sorted.len(),
            sorted@ == old(sorted)@,
            forall|k: int| at <= k < sorted.len() ==> #[trigger] sorted@[k] > c,
        decreases at,
    {
        at -= 1;
    }
    let ghost had = sorted@;
    if at > 0 && sorted[at - 1] == c {
        assert(had[at - 1] == c);
        return;
    }
    proof {
        assert forall|k: int| 0 <= k < at implies #[trigger] had[k] < c by {
            if k < at - 1 {
                assert(had[k] < had[at - 1]);
            }
        }
    }
    sorted.insert(at, c);
    proof {
        let now = sorted@;
        assert(now[at as int] == c);
        assert forall|x: usize| #[trigger] now.contains(x) <==> had.contains(x) || x == c by {
            if had.contains(x) {
                let p = choose|p: int| 0 <= p < had.len() && had[p] == x;
                if p < at {
                    assert(now[p] == x);
                } else {
                    assert(now[p + 1] == x);
                }
            }
            if now.contains(x) {
                let p = choose|p: int| 0 <= p < now.len() && now[p] == x;
                if p < at {
                    assert(had[p] == x);
                } else if p > at {
                    assert(had[p - 1] == x);
                }
            }
        }
        assert forall|i: int, j: int|
            #![trigger now[i], now[j]]
            0 <= i < j < now.len() implies now[i] < now[j] by {
            let pi = if i < at { i } else { i - 1 };
            let pj = if j < at { j } else { j - 1 };
            if i != at {
                assert(now[i] == had[pi]);
            }
            if j != at {
                assert(now[j] == had[pj]);
            }
        }
    }
}

/// `cpus` in order, each once.
pub fn in_order(cpus: &[usize]) -> (sorted: Vec<usize>)
    ensures
        increasing(sorted@),
        forall|x: usize| #[trigger] sorted@.contains(x) <==> cpus@.contains(x),
{
    let mut sorted: Vec<usize> = Vec::new();
    let mut i: usize = 0;
    assert(cpus@.take(0) =~= Seq::<usize>::empty());
    while i < cpus.len()
        invariant
            i <= cpus@.len(),
            increasing(sorted@),
            forall|x: usize| #[trigger] sorted@.contains(x) <==> cpus@.take(i as int).contains(x),
        decreases cpus@.len() - i,
    {
        insert_cpu(&mut sorted, cpus[i]);
        proof {
            let (now, next) = (cpus@.take(i as int), cpus@.take(i + 1));
            assert(next =~= now.push(cpus@[i as int]));
            assert forall|x: usize| #[trigger] sorted@.contains(x) <==> next.contains(x) by {
                if now.contains(x) {
                    let p = choose|p: int| 0 <= p < now.len() && now[p] == x;
                    assert(next[p] == x);
                }
                if x == cpus@[i as int] {
                    assert(next[i as int] == x);
                }
                if next.contains(x) {
                    let p = choose|p: int| 0 <= p < next.len() && next[p] == x;
                    if p < i {
                        assert(now[p] == x);
                    }
                }
            }
        }
        i += 1;
    }
    assert(cpus@.take(i as int) =~= cpus@);
    sorted
}

/// Two lists that go upwards and hold the same are the same.
pub proof fn lemma_increasing_unique(a: Seq<usize>, b: Seq<usize>)
    requires
        increasing(a),
        increasing(b),
        forall|x: usize| #[trigger] a.contains(x) <==> b.contains(x),
    ensures
        a == b,
{
    crate::reorder::lemma_strictly_sorted_unique(a, b, |x: usize, y: usize| x < y);
}

/// Read one part of a CPU list and add the CPUs it names.
fn read_part(raw: &str, out: &mut Vec<usize>) -> (result: Result<(), CpuListError>)
    ensures
        match result {
            Ok(()) => match cpu_part(raw@) {
                CpuPart::Blank => final(out)@ == old(out)@,
                CpuPart::Range(lo, hi) => forall|x: usize| #[trigger]
                    final(out)@.contains(x) <==> old(out)@.contains(x) || lo <= x <= hi,
                _ => false,
            },
            Err(CpuListError::BadNumber(s)) => cpu_part(raw@) == CpuPart::Bad(s@),
            Err(CpuListError::Descending(s)) => cpu_part(raw@) == CpuPart::Descending(s@),
            Err(CpuListError::Empty) => false,
        },
        cpu_part(raw@) matches CpuPart::Range(lo, hi) ==> lo <= hi <= usize::MAX,
{
    let part = text::trim(raw);
    if part.is_empty() {
        return Ok(());
    }
    let c = text::chars_of(part);
    let dash = text::find_from(&c, '-', 0);
    assert(c@.skip(0) =~= c@);
    if dash == c.len() {
        match text::parse_usize(part) {
            None => Err(CpuListError::BadNumber(part.to_owned())),
            Some(n) => {
                out.push(n);
                proof {
                    lemma_push_contains(old(out)@, n);
                }
                Ok(())
            },
        }
    } else {
        assert(part@.subrange(0, dash as int) =~= part@.take(dash as int));
        assert(part@.subrange(dash + 1, part@.len() as int) =~= part@.skip(dash + 1));
        let lo_text = text::trim(part.substring_char(0, dash));
        let hi_text = text::trim(part.substring_char(dash + 1, c.len()));
        let lo = match text::parse_usize(lo_text) {
            None => {
                return Err(CpuListError::BadNumber(lo_text.to_owned()));
            },
            Some(n) => n,
        };
        let hi = match text::parse_usize(hi_text) {
            None => {
                return Err(CpuListError::BadNumber(hi_text.to_owned()));
            },
            Some(n) => n,
        };
        if hi < lo {
            return Err(CpuListError::Descending(part.to_owned()));
        }
        let mut next: usize = lo;
        loop
            invariant_except_break
                lo <= next <= hi,
                forall|x: usize| #[trigger]
                    out@.contains(x) <==> old(out)@.contains(x) || lo <= x < next,
            ensures
                forall|x: usize| #[trigger]
                    out@.contains(x) <==> old(out)@.contains(x) || lo <= x <= hi,
            decreases hi - next,
        {
            let ghost had = out@;
            out.push(next);
            proof {
                lemma_push_contains(had, next);
            }
            if next == hi {
                break;
            }
            next += 1;
        }
        Ok(())
    }
}

/// What a list holds after one more is added.
proof fn lemma_push_contains(s: Seq<usize>, n: usize)
    ensures
        forall|x: usize| #[trigger] s.push(n).contains(x) <==> s.contains(x) || x == n,
{
    let t = s.push(n);
    assert(t[s.len() as int] == n);
    assert forall|x: usize| #[trigger] t.contains(x) <==> s.contains(x) || x == n by {
        if s.contains(x) {
            let p = choose|p: int| 0 <= p < s.len() && s[p] == x;
            assert(t[p] == x);
        }
        if t.contains(x) {
            let p = choose|p: int| 0 <= p < t.len() && t[p] == x;
            if p < s.len() {
                assert(s[p] == x);
            }
        }
    }
}

/// Expand a CPU list like `"1,3-5"` into the CPUs it names, in order.
///
/// Duplicates and disorder are tolerated and normalised, since these lists
/// come from the kernel and from humans.
pub fn read_cpu_list(list: &str) -> (result: Result<Vec<usize>, CpuListError>)
    ensures
        match result {
            Ok(cpus) => list_error(list@) is None && lists_cpus(list@, cpus@) && cpus@.len() > 0,
            Err(e) => list_error(list@) == Some(e@),
        },
{
    let parts = text::split(list, ',');
    let ghost all = text::texts(parts@);
    let mut out: Vec<usize> = Vec::new();
    let mut i: usize = 0;
    assert(all.take(0) =~= Seq::<Seq<char>>::empty());
    while i < parts.len()
        invariant
            i <= parts.len(),
            all == text::texts(parts@),
            all == text::pieces(list@, ','),
            first_wrong(all.take(i as int)) is None,
            forall|x: usize| #[trigger]
                out@.contains(x) <==> parts_name(all.take(i as int), x as nat),
            forall|c: nat| #[trigger] parts_name(all.take(i as int), c) ==> c <= usize::MAX,
        decreases parts.len() - i,
    {
        let ghost (now, next) = (all.take(i as int), all.take(i + 1));
        let ghost had = out@;
        proof {
            assert(next.drop_last() =~= now);
            assert(next.last() == all[i as int]);
            assert(parts@[i as int]@ == all[i as int]);
        }
        match read_part(parts[i], &mut out) {
            Ok(()) => {},
            Err(e) => {
                proof {
                    assert(first_wrong(next) == Some(e@));
                    lemma_first_wrong_stays(all, i + 1);
                }
                return Err(e);
            },
        }
        proof {
            assert forall|c: nat| #[trigger] parts_name(next, c) <==> parts_name(now, c) || (
            match cpu_part(all[i as int]) {
                CpuPart::Range(lo, hi) => lo <= c <= hi,
                _ => false,
            }) by {
                lemma_parts_name_push(now, next, c);
            }
            assert forall|x: usize| #[trigger] out@.contains(x) <==> parts_name(
                next,
                x as nat,
            ) by {
                assert(had.contains(x) <==> parts_name(now, x as nat));
            }
        }
        i += 1;
    }
    assert(all.take(i as int) =~= all);
    if out.len() == 0 {
        assert forall|c: nat| !names_cpu(list@, c) by {
            if names_cpu(list@, c) {
                assert(parts_name(all, c));
                assert(out@.contains(c as usize));
            }
        }
        return Err(CpuListError::Empty);
    }
    proof {
        assert(out@.contains(out@[0]));
        assert(names_cpu(list@, out@[0] as nat));
    }
    let sorted = in_order(out.as_slice());
    proof {
        assert(sorted@.contains(out@[0]));
        assert forall|c: usize| #[trigger] sorted@.contains(c) <==> names_cpu(list@, c as nat) by {
            assert(out@.contains(c) <==> parts_name(all, c as nat));
        }
    }
    Ok(sorted)
}

/// The first thing wrong with some parts is the first with more parts.
pub proof fn lemma_first_wrong_stays(all: Seq<Seq<char>>, k: int)
    requires
        0 <= k <= all.len(),
        first_wrong(all.take(k)) is Some,
    ensures
        first_wrong(all) == first_wrong(all.take(k)),
    decreases all.len() - k,
{
    if k == all.len() {
        assert(all.take(k) =~= all);
    } else {
        assert(all.take(k + 1).drop_last() =~= all.take(k));
        lemma_first_wrong_stays(all, k + 1);
    }
}

/// What one more part names.
proof fn lemma_parts_name_push(now: Seq<Seq<char>>, next: Seq<Seq<char>>, c: nat)
    requires
        next.len() == now.len() + 1,
        next.drop_last() == now,
    ensures
        parts_name(next, c) <==> parts_name(now, c) || (match cpu_part(next.last()) {
            CpuPart::Range(lo, hi) => lo <= c <= hi,
            _ => false,
        }),
{
    if parts_name(now, c) {
        let i = choose|i: int|
            0 <= i < now.len() && (match cpu_part(#[trigger] now[i]) {
                CpuPart::Range(lo, hi) => lo <= c <= hi,
                _ => false,
            });
        assert(next[i] == now[i]);
    }
    if parts_name(next, c) {
        let i = choose|i: int|
            0 <= i < next.len() && (match cpu_part(#[trigger] next[i]) {
                CpuPart::Range(lo, hi) => lo <= c <= hi,
                _ => false,
            });
        if i < now.len() {
            assert(next[i] == now[i]);
        }
    }
    assert(next[next.len() - 1] == next.last());
}

/// How many CPUs at the start of `s` follow one another without a gap.
pub open spec fn run_length(s: Seq<usize>) -> int
    decreases s.len(),
{
    if s.len() <= 1 {
        s.len() as int
    } else if s[1] == s[0] + 1 {
        1 + run_length(s.drop_first())
    } else {
        1
    }
}

/// A run of CPUs, written down.
pub open spec fn run_text(lo: nat, hi: nat) -> Seq<char> {
    if lo == hi {
        text::decimal(lo)
    } else {
        text::decimal(lo) + seq!['-'] + text::decimal(hi)
    }
}

/// The runs of `s`, written down.
pub open spec fn run_texts(s: Seq<usize>) -> Seq<Seq<char>>
    decreases s.len(),
{
    let k = run_length(s);
    if k <= 0 || k > s.len() {
        Seq::empty()
    } else {
        seq![run_text(s[0] as nat, s[k - 1] as nat)] + run_texts(s.skip(k))
    }
}

/// A list of CPUs that goes upwards, written down with its runs collapsed.
pub open spec fn cpu_list_text(s: Seq<usize>) -> Seq<char> {
    text::joined(run_texts(s), seq![','])
}

/// What [`run_length`] promises.
pub proof fn lemma_run_length(s: Seq<usize>)
    ensures
        s.len() > 0 ==> 1 <= run_length(s) <= s.len(),
        forall|i: int| 0 <= i < run_length(s) ==> #[trigger] s[i] == s[0] + i,
    decreases s.len(),
{
    if s.len() > 1 && s[1] == s[0] + 1 {
        let rest = s.drop_first();
        lemma_run_length(rest);
        assert forall|i: int| 0 <= i < run_length(s) implies #[trigger] s[i] == s[0] + i by {
            if i > 0 {
                assert(rest[i - 1] == rest[0] + (i - 1));
            }
        }
    }
}

/// Render a set of CPU numbers as a CPU list, collapsing runs: `[1, 3, 4, 5]`
/// becomes `"1,3-5"`.
pub fn format_cpu_list(cpus: &[usize]) -> (out: String)
    ensures
        exists|s: Seq<usize>|
            increasing(s) && (forall|x: usize| #[trigger] s.contains(x) <==> cpus@.contains(x))
                && out@ == cpu_list_text(s),
{
    let sorted = in_order(cpus);
    let ghost s = sorted@;
    let mut parts: Vec<String> = Vec::new();
    let mut i: usize = 0;
    assert(s.skip(0) =~= s);
    assert(text::strings(parts@) + run_texts(s) =~= run_texts(s));
    while i < sorted.len()
        invariant
            i <= sorted.len(),
            s == sorted@,
            increasing(s),
            text::strings(parts@) + run_texts(s.skip(i as int)) == run_texts(s),
        decreases sorted.len() - i,
    {
        let ghost rest = s.skip(i as int);
        let start = sorted[i];
        let mut last: usize = i;
        assert(rest.skip(0) =~= rest);
        while last + 1 < sorted.len() && sorted[last + 1] - 1 == sorted[last]
            invariant
                i <= last < sorted.len(),
                s == sorted@,
                increasing(s),
                rest == s.skip(i as int),
                run_length(rest) == last - i + run_length(s.skip(last as int)),
            decreases sorted.len() - last,
        {
            assert(s[last as int] < s[last + 1]);
            let ghost from = s.skip(last as int);
            assert(from[0] == s[last as int] && from[1] == s[last + 1]);
            assert(from.drop_first() =~= s.skip(last + 1));
            last += 1;
        }
        proof {
            let from = s.skip(last as int);
            assert(from[0] == s[last as int]);
            if last + 1 < sorted.len() {
                assert(from[1] == s[last + 1]);
                assert(s[last as int] < s[last + 1]);
            }
            assert(run_length(from) == 1);
            assert(rest[0] == start && rest[last - i] == s[last as int]);
        }
        let end = sorted[last];
        let mut part = String::new();
        text::append_number(&mut part, start as u64);
        if start != end {
            part.append("-");
            text::append_number(&mut part, end as u64);
        }
        let ghost had = text::strings(parts@);
        proof {
            reveal_strlit("-");
            assert("-"@ =~= seq!['-']);
            if start == end && last > i {
                assert(s[i as int] < s[last as int]);
            }
            assert(part@ =~= run_text(start as nat, end as nat));
        }
        parts.push(part);
        proof {
            assert(text::strings(parts@) =~= had.push(run_text(start as nat, end as nat)));
            assert(rest.skip(last - i + 1) =~= s.skip(last + 1));
            assert(had.push(run_text(start as nat, end as nat)) + run_texts(s.skip(last + 1))
                =~= had + (seq![run_text(start as nat, end as nat)] + run_texts(
                s.skip(last + 1),
            )));
        }
        i = last + 1;
    }
    proof {
        assert(run_texts(s.skip(i as int)) =~= Seq::<Seq<char>>::empty());
        assert(text::strings(parts@) =~= run_texts(s));
        reveal_strlit(",");
        assert(","@ =~= seq![',']);
    }
    text::join(&parts, ",")
}

/// A decimal number holds no separator and no white space.
pub proof fn lemma_decimal_plain(n: nat)
    ensures
        !text::decimal(n).contains(','),
        !text::decimal(n).contains('-'),
        text::trimmed(text::decimal(n)) == text::decimal(n),
        text::decimal(n).len() > 0,
{
    text::lemma_decimal(n);
    let d = text::decimal(n);
    assert(text::is_digit(d[0]));
    assert(text::is_digit(d[d.len() - 1]));
    if d.contains(',') {
        let i = choose|i: int| 0 <= i < d.len() && d[i] == ',';
        assert(text::is_digit(d[i]));
    }
    if d.contains('-') {
        let i = choose|i: int| 0 <= i < d.len() && d[i] == '-';
        assert(text::is_digit(d[i]));
    }
    text::lemma_trimmed_already(d);
}

/// A run, written down, reads back.
pub proof fn lemma_run_reads_back(lo: nat, hi: nat)
    requires
        lo <= hi <= usize::MAX,
    ensures
        cpu_part(run_text(lo, hi)) == CpuPart::Range(lo, hi),
        !run_text(lo, hi).contains(','),
{
    let (a, b) = (text::decimal(lo), text::decimal(hi));
    lemma_decimal_plain(lo);
    lemma_decimal_plain(hi);
    text::lemma_decimal_reads_back(lo, usize::MAX as nat);
    text::lemma_decimal_reads_back(hi, usize::MAX as nat);
    let t = run_text(lo, hi);
    if lo == hi {
        assert forall|k: int| 0 <= k < t.len() implies t[k] != '-' by {
            if t[k] == '-' {
                assert(t.contains('-'));
            }
        }
        text::lemma_first_index_is(t, '-', t.len() as int);
    } else {
        text::lemma_decimal(lo);
        text::lemma_decimal(hi);
        assert(t[0] == a[0] && text::is_digit(a[0]));
        assert(t.last() == b.last() && text::is_digit(b[b.len() - 1]));
        text::lemma_trimmed_already(t);
        let n = a.len() as int;
        assert(t[n] == '-');
        assert forall|k: int| 0 <= k < n implies t[k] != '-' by {
            assert(t[k] == a[k]);
            if a[k] == '-' {
                assert(a.contains('-'));
            }
        }
        text::lemma_first_index_is(t, '-', n);
        assert(t.take(n) =~= a);
        assert(t.skip(n + 1) =~= b);
        if t.contains(',') {
            let k = choose|k: int| 0 <= k < t.len() && t[k] == ',';
            if k < n {
                assert(a[k] == ',');
                assert(a.contains(','));
            } else {
                assert(b[k - n - 1] == ',');
                assert(b.contains(','));
            }
        }
    }
}

/// The runs of a list, written down, name what the list holds.
proof fn lemma_runs_read_back(s: Seq<usize>)
    requires
        increasing(s),
    ensures
        s.len() > 0 ==> run_texts(s).len() > 0,
        forall|i: int|
            0 <= i < run_texts(s).len() ==> cpu_part(#[trigger] run_texts(s)[i]) is Range
                && !run_texts(s)[i].contains(','),
        forall|c: nat| #[trigger]
            parts_name(run_texts(s), c) <==> c <= usize::MAX && s.contains(c as usize),
    decreases s.len(),
{
    lemma_run_length(s);
    if s.len() > 0 {
        let k = run_length(s);
        let rest = s.skip(k);
        let (lo, hi) = (s[0] as nat, s[k - 1] as nat);
        let parts = run_texts(s);
        assert forall|i: int, j: int|
            #![trigger rest[i], rest[j]]
            0 <= i < j < rest.len() implies rest[i] < rest[j] by {
            assert(s[k + i] < s[k + j]);
        }
        assert(s[k - 1] == s[0] + (k - 1));
        lemma_runs_read_back(rest);
        lemma_run_reads_back(lo, hi);
        assert(parts[0] == run_text(lo, hi));
        assert(parts.drop_first() =~= run_texts(rest));
        assert forall|i: int| 0 <= i < parts.len() implies cpu_part(#[trigger] parts[i]) is Range
            && !parts[i].contains(',') by {
            if i > 0 {
                assert(parts[i] == run_texts(rest)[i - 1]);
            }
        }
        assert forall|c: nat| #[trigger] parts_name(parts, c) <==> c <= usize::MAX && s.contains(
            c as usize,
        ) by {
            assert(parts_name(parts, c) <==> lo <= c <= hi || parts_name(run_texts(rest), c)) by {
                lemma_parts_name_first(parts, run_texts(rest), c);
            }
            if lo <= c <= hi {
                assert(s[c - lo] == s[0] + (c - lo));
                assert(s[c - lo] == c as usize);
            }
            if parts_name(run_texts(rest), c) {
                let i = choose|i: int| 0 <= i < rest.len() && rest[i] == c as usize;
                assert(s[k + i] == c as usize);
            }
            if c <= usize::MAX && s.contains(c as usize) {
                let i = choose|i: int| 0 <= i < s.len() && s[i] == c as usize;
                if i < k {
                    assert(s[i] == s[0] + i);
                } else {
                    assert(rest[i - k] == c as usize);
                    assert(rest.contains(c as usize));
                }
            }
        }
    } else {
        assert(run_texts(s) =~= Seq::<Seq<char>>::empty());
    }
}

/// What a part in front names.
proof fn lemma_parts_name_first(parts: Seq<Seq<char>>, rest: Seq<Seq<char>>, c: nat)
    requires
        parts.len() == rest.len() + 1,
        parts.drop_first() == rest,
    ensures
        parts_name(parts, c) <==> parts_name(rest, c) || (match cpu_part(parts[0]) {
            CpuPart::Range(lo, hi) => lo <= c <= hi,
            _ => false,
        }),
{
    if parts_name(rest, c) {
        let i = choose|i: int|
            0 <= i < rest.len() && (match cpu_part(#[trigger] rest[i]) {
                CpuPart::Range(lo, hi) => lo <= c <= hi,
                _ => false,
            });
        assert(parts[i + 1] == rest[i]);
    }
    if parts_name(parts, c) {
        let i = choose|i: int|
            0 <= i < parts.len() && (match cpu_part(#[trigger] parts[i]) {
                CpuPart::Range(lo, hi) => lo <= c <= hi,
                _ => false,
            });
        if i > 0 {
            assert(parts[i] == rest[i - 1]);
        }
    }
}

/// Parts that each name a range have nothing wrong with them.
proof fn lemma_nothing_wrong(parts: Seq<Seq<char>>)
    requires
        forall|i: int| 0 <= i < parts.len() ==> cpu_part(#[trigger] parts[i]) is Range,
    ensures
        first_wrong(parts) is None,
    decreases parts.len(),
{
    if parts.len() > 0 {
        let rest = parts.drop_last();
        assert forall|i: int| 0 <= i < rest.len() implies cpu_part(#[trigger] rest[i]) is Range by {
            assert(rest[i] == parts[i]);
        }
        lemma_nothing_wrong(rest);
        assert(cpu_part(parts[parts.len() - 1]) is Range);
    }
}

/// CPU lists round-trip: a list of CPUs, written down and read again, names
/// the same CPUs.
pub proof fn law_cpu_lists_round_trip(s: Seq<usize>)
    requires
        increasing(s),
        s.len() > 0,
    ensures
        list_error(cpu_list_text(s)) is None,
        lists_cpus(cpu_list_text(s), s),
        forall|v: Seq<usize>| lists_cpus(cpu_list_text(s), v) ==> v == s,
{
    let t = cpu_list_text(s);
    lemma_runs_read_back(s);
    text::lemma_pieces_of_joined(run_texts(s), ',');
    lemma_nothing_wrong(run_texts(s));
    assert forall|c: usize| #[trigger] s.contains(c) <==> names_cpu(t, c as nat) by {
        assert(parts_name(run_texts(s), c as nat) <==> s.contains(c as nat as usize));
    }
    assert(s.contains(s[0]));
    assert(names_cpu(t, s[0] as nat));
    assert forall|v: Seq<usize>| lists_cpus(t, v) implies v == s by {
        assert forall|x: usize| #[trigger] v.contains(x) <==> s.contains(x) by {
            assert(v.contains(x) <==> names_cpu(t, x as nat));
        }
        lemma_increasing_unique(v, s);
    }
}

/// How a text looks in quotes, with what cannot be shown escaped.
pub uninterp spec fn quoted(s: Seq<char>) -> Seq<char>;

/// `s` in quotes, as `{:?}` of `format!` shows a `str`.
///
/// What the quoted text looks like is left to the standard library; it
/// depends on `s` alone.
#[verifier::external_body]
fn quote(s: &str) -> (out: String)
    ensures
        out@ == quoted(s@),
{
    format!("{:?}", s)
}

/// What is wrong with a CPU list, for a human, given the text it is wrong
/// about as it should be shown.
pub open spec fn complaint(e: CpuListErrorView, shown: Seq<char>) -> Seq<char> {
    match e {
        CpuListErrorView::BadNumber(_) => "bad CPU number "@ + shown,
        CpuListErrorView::Descending(_) => "descending CPU range "@ + shown,
        CpuListErrorView::Empty => "empty CPU list"@,
    }
}

/// The text an error is about.
pub open spec fn subject(e: CpuListErrorView) -> Seq<char> {
    match e {
        CpuListErrorView::BadNumber(s) => s,
        CpuListErrorView::Descending(s) => s,
        CpuListErrorView::Empty => Seq::empty(),
    }
}

impl CpuListError {
    /// What is wrong, for a human, given the text it is wrong about as it
    /// should be shown.
    pub fn describe(&self, shown: &str) -> (out: String)
        ensures
            out@ == complaint(self@, shown@),
    {
        match self {
            CpuListError::BadNumber(_) => {
                let mut out = "bad CPU number ".to_owned();
                out.append(shown);
                out
            },
            CpuListError::Descending(_) => {
                let mut out = "descending CPU range ".to_owned();
                out.append(shown);
                out
            },
            CpuListError::Empty => "empty CPU list".to_owned(),
        }
    }

    /// What is wrong, for a human.
    pub fn message(&self) -> (out: String)
        ensures
            out@ == complaint(self@, quoted(subject(self@))),
    {
        match self {
            CpuListError::BadNumber(s) => self.describe(quote(s.as_str()).as_str()),
            CpuListError::Descending(s) => self.describe(quote(s.as_str()).as_str()),
            CpuListError::Empty => self.describe(""),
        }
    }
}

/// Expand a CPU list like `"1,3-5"` into `[1, 3, 4, 5]`.
///
/// Returns a human-readable reason if the list is malformed.
pub fn parse_cpu_list(list: &str) -> (result: Result<Vec<usize>, String>)
    ensures
        match result {
            Ok(cpus) => list_error(list@) is None && lists_cpus(list@, cpus@) && cpus@.len() > 0,
            Err(why) => list_error(list@) matches Some(e) && why@ == complaint(
                e,
                quoted(subject(e)),
            ),
        },
{
    match read_cpu_list(list) {
        Ok(cpus) => Ok(cpus),
        Err(e) => Err(e.message()),
    }
}

/// What was found when looking for a quiesced environment.
#[derive(Debug, Clone, PartialEq, Eq)]
pub enum Status {
    /// This thread is pinned to the reserved CPUs: measurements are as good
    /// as this machine can make them.
    Pinned {
        /// The reserved CPU list.
        cpus: String,
    },
    /// CPUs are reserved, but this thread is not confined to them: pinning
    /// was suppressed, or failed.
    Reserved {
        /// The reserved CPU list.
        cpus: String,
        /// What this thread is actually allowed to run on.
        affinity: String,
    },
    /// No reservation is in effect. Timings will hold whatever else the
    /// machine is doing.
    NotQuiesced,
    /// CPUs cannot be reserved or detected here.
    Unsupported,
}

/// The values of a [`Status`].
pub enum StatusView {
    Pinned { cpus: Seq<char> },
    Reserved { cpus: Seq<char>, affinity: Seq<char> },
    NotQuiesced,
    Unsupported,
}

impl View for Status {
    type V = StatusView;

    open spec fn view(&self) -> StatusView {
        match *self {
            Status::Pinned { cpus } => StatusView::Pinned { cpus: cpus@ },
            Status::Reserved { cpus, affinity } => StatusView::Reserved {
                cpus: cpus@,
                affinity: affinity@,
            },
            Status::NotQuiesced => StatusView::NotQuiesced,
            Status::Unsupported => StatusView::Unsupported,
        }
    }
}

impl StatusView {
    /// The sentence a reader is shown.
    pub open spec fn sentence(self) -> Seq<char> {
        match self {
            StatusView::Pinned { cpus } => "pinned to reserved CPU(s) "@ + cpus,
            StatusView::Reserved { cpus, affinity } => {
                "CPU(s) "@ + cpus + " are reserved but this thread may run on "@ + affinity
            },
            StatusView::NotQuiesced => {
                "machine is not quiesced (see `quiet-bench reserve`); timings will include whatever else it is doing"@
            },
            StatusView::Unsupported => "CPU reservation is only supported on Linux"@,
        }
    }
}

impl Status {
    /// The sentence to show a reader.
    pub fn message(&self) -> (out: String)
        ensures
            out@ == self@.sentence(),
    {
        match self {
            Status::Pinned { cpus } => {
                let mut out = "pinned to reserved CPU(s) ".to_owned();
                out.append(cpus.as_str());
                out
            },
            Status::Reserved { cpus, affinity } => {
                let mut out = "CPU(s) ".to_owned();
                out.append(cpus.as_str());
                out.append(" are reserved but this thread may run on ");
                out.append(affinity.as_str());
                out
            },
            Status::NotQuiesced => {
                "machine is not quiesced (see `quiet-bench reserve`); timings will include whatever else it is doing".to_owned()
            },
            Status::Unsupported => "CPU reservation is only supported on Linux".to_owned(),
        }
    }
}

/// A text trimmed, where that leaves anything.
pub open spec fn trimmed_unless_blank(s: Seq<char>) -> Option<Seq<char>> {
    if text::trimmed(s).len() == 0 {
        None
    } else {
        Some(text::trimmed(s))
    }
}

/// The reserved CPU list: what the environment says, else what the file says.
pub open spec fn reservation(
    variable: Option<Seq<char>>,
    file: Option<Seq<char>>,
) -> Option<Seq<char>> {
    match variable {
        Some(v) if trimmed_unless_blank(v) is Some => trimmed_unless_blank(v),
        _ => match file {
            Some(f) => trimmed_unless_blank(f),
            None => None,
        },
    }
}

/// The reserved CPU list, if there is one.
///
/// Prefers the value of [`CPUS_VAR`] and falls back to the contents of
/// [`CPUS_PATH`], so a benchmark launched some other way still notices a
/// machine-wide reservation.
pub fn reserved_cpus(variable: Option<&str>, file: Option<&str>) -> (out: Option<String>)
    ensures
        text::maybe_owned(out) == reservation(text::maybe(variable), text::maybe(file)),
{
    match variable {
        Some(v) => {
            let v = text::trim(v);
            if !v.is_empty() {
                return Some(v.to_owned());
            }
        },
        None => {},
    }
    match file {
        Some(f) => {
            let f = text::trim(f);
            if f.is_empty() {
                None
            } else {
                Some(f.to_owned())
            }
        },
        None => None,
    }
}

/// The CPUs a thread may run on, as a CPU list, given for each CPU whether it
/// may; nothing where that could not be found out.
pub fn current_affinity(allowed: Option<&[bool]>) -> (out: Option<String>)
    ensures
        match (allowed, out) {
            (None, None) => true,
            (Some(marks), Some(list)) => exists|s: Seq<usize>|
                increasing(s) && (forall|x: usize| #[trigger]
                    s.contains(x) <==> x < marks@.len() && marks@[x as int]) && list@
                    == cpu_list_text(s),
            _ => false,
        },
{
    match allowed {
        None => None,
        Some(marks) => {
            let mut cpus: Vec<usize> = Vec::new();
            let mut c: usize = 0;
            while c < marks.len()
                invariant
                    c <= marks@.len(),
                    forall|x: usize| #[trigger]
                        cpus@.contains(x) <==> x < c && marks@[x as int],
                decreases marks@.len() - c,
            {
                if marks[c] {
                    proof {
                        lemma_push_contains(cpus@, c);
                    }
                    cpus.push(c);
                }
                c += 1;
            }
            let list = format_cpu_list(cpus.as_slice());
            proof {
                let s = choose|s: Seq<usize>|
                    increasing(s) && (forall|x: usize| #[trigger]
                        s.contains(x) <==> cpus@.contains(x)) && list@ == cpu_list_text(s);
                assert(forall|x: usize| #[trigger]
                    s.contains(x) <==> x < marks@.len() && marks@[x as int]);
            }
            Some(list)
        },
    }
}

/// The CPUs of `cpus` that a set of `capacity` CPUs has room for: what
/// pinning to `cpus` asks the kernel for.
pub fn cpus_that_fit(cpus: &[usize], capacity: usize) -> (out: Vec<usize>)
    ensures
        out@ == cpus@.filter(|c: usize| c < capacity),
{
    let ghost fits = |c: usize| c < capacity;
    let mut out: Vec<usize> = Vec::new();
    let mut i: usize = 0;
    proof {
        reveal(Seq::filter);
        assert(cpus@.take(0) =~= Seq::<usize>::empty());
        assert(out@ =~= cpus@.take(0).filter(fits));
    }
    while i < cpus.len()
        invariant
            i <= cpus@.len(),
            fits == (|c: usize| c < capacity),
            out@ == cpus@.take(i as int).filter(fits),
        decreases cpus@.len() - i,
    {
        proof {
            crate::lists::lemma_filter_step(cpus@, fits, i as int);
        }
        if cpus[i] < capacity {
            out.push(cpus[i]);
        }
        i += 1;
    }
    assert(cpus@.take(i as int) =~= cpus@);
    out
}

/// Whether two CPU lists are both well formed and name the same CPUs.
pub open spec fn same_cpus(a: Seq<char>, b: Seq<char>) -> bool {
    &&& list_error(a) is None
    &&& list_error(b) is None
    &&& forall|c: usize| #[trigger] names_cpu(a, c as nat) <==> names_cpu(b, c as nat)
}

/// What a reservation means for a thread. A reservation that cannot be read is
/// none.
pub open spec fn status_of(
    supported: bool,
    reserved: Option<Seq<char>>,
    affinity: Option<Seq<char>>,
) -> StatusView {
    match (supported, reserved, affinity) {
        (false, _, _) => StatusView::Unsupported,
        (true, Some(cpus), Some(have)) => if list_error(cpus) is Some {
            StatusView::NotQuiesced
        } else if same_cpus(cpus, have) {
            StatusView::Pinned { cpus }
        } else {
            StatusView::Reserved { cpus, affinity: have }
        },
        _ => StatusView::NotQuiesced,
    }
}

/// Whether two lists of CPUs are the same.
fn same_numbers(a: &Vec<usize>, b: &Vec<usize>) -> (same: bool)
    ensures
        same == (a@ == b@),
{
    if a.len() != b.len() {
        return false;
    }
    let mut i: usize = 0;
    while i < a.len()
        invariant
            i <= a.len(),
            a.len() == b.len(),
            forall|k: int| 0 <= k < i ==> a@[k] == b@[k],
        decreases a.len() - i,
    {
        if a[i] != b[i] {
            return false;
        }
        i += 1;
    }
    assert(a@ =~= b@);
    true
}

/// What a reservation of the CPUs `reserved` means for a thread that may run
/// on `affinity`, where `supported` says whether CPUs can be reserved here.
///
/// The two lists are compared as sets rather than as strings, since `"2"` and
/// `"2-2"` name the same CPU. A list that does not parse reserves nothing, so
/// the list of a [`Status::Pinned`] or [`Status::Reserved`] always does.
pub fn status(supported: bool, reserved: Option<String>, affinity: Option<String>) -> (out: Status)
    ensures
        out@ == status_of(supported, text::maybe_owned(reserved), text::maybe_owned(affinity)),
{
    if !supported {
        return Status::Unsupported;
    }
    let cpus = match reserved {
        Some(c) => c,
        None => {
            return Status::NotQuiesced;
        },
    };
    let have = match affinity {
        Some(a) => a,
        None => {
            return Status::NotQuiesced;
        },
    };
    let want = match read_cpu_list(cpus.as_str()) {
        Ok(want) => want,
        Err(_) => {
            return Status::NotQuiesced;
        },
    };
    let pinned = match read_cpu_list(have.as_str()) {
        Ok(got) => {
            let same = same_numbers(&want, &got);
            proof {
                if same {
                    assert forall|c: usize| #[trigger] names_cpu(cpus@, c as nat) <==> names_cpu(
                        have@,
                        c as nat,
                    ) by {
                        assert(want@.contains(c) <==> got@.contains(c));
                    }
                }
                if same_cpus(cpus@, have@) {
                    assert forall|c: usize| #[trigger] want@.contains(c) <==> got@.contains(c) by {
                        assert(names_cpu(cpus@, c as nat) <==> names_cpu(have@, c as nat));
                    }
                    lemma_increasing_unique(want@, got@);
                }
            }
            same
        },
        Err(_) => false,
    };
    if pinned {
        Status::Pinned { cpus }
    } else {
        Status::Reserved { cpus, affinity: have }
    }
}

/// What a thread should pin itself to.
pub open spec fn pin_list(
    already: bool,
    supported: bool,
    no_pin: Option<Seq<char>>,
    variable: Option<Seq<char>>,
) -> Option<Seq<char>> {
    if already || !supported || no_pin == Some("1"@) {
        None
    } else {
        match variable {
            Some(v) if list_error(v) is None => Some(v),
            _ => None,
        }
    }
}

/// The CPUs the running thread should pin itself to, if any: once per thread,
/// where pinning works at all, and only on an explicit request in the
/// environment that is not suppressed there.
///
/// A machine-wide reservation says that one exists, not that this program was
/// meant to have it, so the file is not consulted.
pub fn pin_if_requested(
    already: bool,
    supported: bool,
    no_pin: Option<&str>,
    variable: Option<&str>,
) -> (out: Option<Vec<usize>>)
    ensures
        match out {
            Some(cpus) => pin_list(already, supported, text::maybe(no_pin), text::maybe(variable)) matches Some(
                list,
            ) && lists_cpus(list, cpus@),
            None => pin_list(already, supported, text::maybe(no_pin), text::maybe(variable)) is None,
        },
{
    if already || !supported {
        return None;
    }
    match no_pin {
        Some(v) => {
            if text::same_text(v, "1") {
                return None;
            }
        },
        None => {},
    }
    match variable {
        Some(v) => match read_cpu_list(v) {
            Ok(cpus) => Some(cpus),
            Err(_) => None,
        },
        None => None,
    }
}

/// A thread that may run on exactly the CPUs reserved, as the kernel writes
/// them down, counts as pinned.
pub proof fn law_pinning_is_recognised(reserved: Seq<char>, cpus: Seq<usize>)
    requires
        list_error(reserved) is None,
        lists_cpus(reserved, cpus),
        cpus.len() > 0,
    ensures
        status_of(true, Some(reserved), Some(cpu_list_text(cpus))) == (StatusView::Pinned {
            cpus: reserved,
        }),
{
    law_cpu_lists_round_trip(cpus);
    let t = cpu_list_text(cpus);
    assert forall|c: usize| #[trigger] names_cpu(reserved, c as nat) <==> names_cpu(t, c as nat) by {
        assert(cpus.contains(c) <==> names_cpu(reserved, c as nat));
        assert(cpus.contains(c) <==> names_cpu(t, c as nat));
    }
}

/// A status agrees with what it is derived from: a list it reports is the
/// reservation, and it parses.
pub proof fn law_a_reported_list_parses(
    supported: bool,
    reserved: Option<Seq<char>>,
    affinity: Option<Seq<char>>,
)
    ensures
        match status_of(supported, reserved, affinity) {
            StatusView::Pinned { cpus } => reserved == Some(cpus) && list_error(cpus) is None,
            StatusView::Reserved { cpus, affinity: have } => reserved == Some(cpus) && affinity
                == Some(have) && list_error(cpus) is None,
            StatusView::NotQuiesced => supported && (reserved is None || affinity is None
                || list_error(reserved->0) is Some),
            StatusView::Unsupported => !supported,
        },
{
}

} // verus!
