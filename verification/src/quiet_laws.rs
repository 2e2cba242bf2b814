//! What holds of every CPU list, and of what a reservation means.

use crate::quiet;
use crate::quiet::{CpuListErrorView, CpuPart, StatusView};
use crate::text;
use crate::text_laws;
use vstd::prelude::*;

verus! {

/// What a list of one part names, and what is wrong with it.
proof fn lemma_single(t: Seq<char>, c: nat)
    requires
        !t.contains(','),
    ensures
        quiet::names_cpu(t, c) <==> (match quiet::cpu_part(t) {
            CpuPart::Range(lo, hi) => lo <= c <= hi,
            _ => false,
        }),
        quiet::list_error(t) == match quiet::cpu_part(t) {
            CpuPart::Blank => Some(CpuListErrorView::Empty),
            CpuPart::Bad(s) => Some(CpuListErrorView::BadNumber(s)),
            CpuPart::Descending(s) => Some(CpuListErrorView::Descending(s)),
            CpuPart::Range(lo, hi) => if lo <= hi {
                None
            } else {
                Some(CpuListErrorView::Empty)
            },
        },
{
    text::lemma_one_piece(t, ',');
    let parts = seq![t];
    assert(parts[0] == t);
    assert(parts.drop_last() =~= Seq::<Seq<char>>::empty());
    reveal_with_fuel(quiet::first_wrong, 2);
    if let CpuPart::Range(lo, hi) = quiet::cpu_part(t) {
        if lo <= hi {
            assert(quiet::names_cpu(t, lo)) by {
                assert(quiet::parts_name(parts, lo));
            }
        } else {
            assert forall|d: nat| !quiet::names_cpu(t, d) by {}
        }
    } else {
        assert forall|d: nat| !quiet::names_cpu(t, d) by {}
    }
}

/// A number and a range in decimal, as one part.
proof fn lemma_range_part(a: nat, b: nat)
    requires
        a <= usize::MAX,
        b <= usize::MAX,
    ensures
        !text::decimal(a).contains(','),
        quiet::cpu_part(text::decimal(a)) == CpuPart::Range(a, a),
        ({
            let t = text::decimal(a) + seq!['-'] + text::decimal(b);
            &&& !t.contains(',')
            &&& quiet::cpu_part(t) == if b < a {
                CpuPart::Descending(t)
            } else {
                CpuPart::Range(a, b)
            }
        }),
{
    let (x, y) = (text::decimal(a), text::decimal(b));
    let t = x + seq!['-'] + y;
    quiet::lemma_decimal_plain(a);
    quiet::lemma_decimal_plain(b);
    text::lemma_decimal_reads_back(a, usize::MAX as nat);
    text::lemma_decimal_reads_back(b, usize::MAX as nat);
    text::lemma_decimal(a);
    text::lemma_decimal(b);
    quiet::lemma_run_reads_back(a, a);
    assert(t[0] == x[0] && text::is_digit(x[0]));
    assert(t.last() == y.last() && text::is_digit(y[y.len() - 1]));
    text::lemma_trimmed_already(t);
    let n = x.len() as int;
    assert(t[n] == '-');
    assert forall|k: int| 0 <= k < n implies t[k] != '-' by {
        assert(t[k] == x[k]);
        if x[k] == '-' {
            assert(x.contains('-'));
        }
    }
    text::lemma_first_index_is(t, '-', n);
    assert(t.take(n) =~= x);
    assert(t.skip(n + 1) =~= y);
    if t.contains(',') {
        let k = choose|k: int| 0 <= k < t.len() && t[k] == ',';
        if k < n {
            assert(x[k] == ',');
            assert(x.contains(','));
        } else {
            assert(y[k - n - 1] == ',');
            assert(y.contains(','));
        }
    }
}

/// A number names that CPU, and a range the CPUs from its first to its last,
/// both of them among these. A range whose last comes before its first is
/// refused.
pub proof fn law_a_range_names_both_its_ends(a: nat, b: nat, c: nat)
    requires
        a <= usize::MAX,
        b <= usize::MAX,
    ensures
        quiet::list_error(text::decimal(a)) is None,
        quiet::names_cpu(text::decimal(a), c) <==> c == a,
        ({
            let range = text::decimal(a) + seq!['-'] + text::decimal(b);
            &&& a <= b ==> quiet::list_error(range) is None && (quiet::names_cpu(range, c) <==> a
                <= c <= b)
            &&& b < a ==> quiet::list_error(range) == Some(CpuListErrorView::Descending(range))
        }),
{
    lemma_range_part(a, b);
    lemma_single(text::decimal(a), c);
    lemma_single(text::decimal(a) + seq!['-'] + text::decimal(b), c);
}

/// A list names what its parts name, and is wrong where the first of them is
/// that says nothing sensible. A part that names nothing is no error beside one
/// that does.
pub proof fn law_a_list_names_what_its_parts_name(x: Seq<char>, y: Seq<char>, c: nat)
    ensures
        quiet::names_cpu(x + seq![','] + y, c) <==> quiet::names_cpu(x, c) || quiet::names_cpu(
            y,
            c,
        ),
        quiet::list_error(x + seq![','] + y) == match (quiet::list_error(x), quiet::list_error(y)) {
            (Some(CpuListErrorView::BadNumber(s)), _) => Some(CpuListErrorView::BadNumber(s)),
            (Some(CpuListErrorView::Descending(s)), _) => Some(CpuListErrorView::Descending(s)),
            (_, Some(CpuListErrorView::BadNumber(s))) => Some(CpuListErrorView::BadNumber(s)),
            (_, Some(CpuListErrorView::Descending(s))) => Some(CpuListErrorView::Descending(s)),
            (Some(CpuListErrorView::Empty), Some(CpuListErrorView::Empty)) => Some(
                CpuListErrorView::Empty,
            ),
            _ => None,
        },
{
    let t = x + seq![','] + y;
    let (px, py) = (text::pieces(x, ','), text::pieces(y, ','));
    text::lemma_pieces_add(x, ',', y);
    assert forall|d: nat| #[trigger] quiet::names_cpu(t, d) <==> quiet::names_cpu(x, d)
        || quiet::names_cpu(y, d) by {
        lemma_parts_name_add(px, py, d);
    }
    lemma_first_wrong_add(px, py);
    lemma_first_wrong_kind(px);
    lemma_first_wrong_kind(py);
    if exists|d: nat| quiet::names_cpu(x, d) {
        let d = choose|d: nat| quiet::names_cpu(x, d);
        assert(quiet::names_cpu(t, d));
    }
    if exists|d: nat| quiet::names_cpu(y, d) {
        let d = choose|d: nat| quiet::names_cpu(y, d);
        assert(quiet::names_cpu(t, d));
    }
    if exists|d: nat| quiet::names_cpu(t, d) {
        let d = choose|d: nat| quiet::names_cpu(t, d);
        assert(quiet::names_cpu(x, d) || quiet::names_cpu(y, d));
    }
}

/// What two lists of parts name together.
proof fn lemma_parts_name_add(a: Seq<Seq<char>>, b: Seq<Seq<char>>, c: nat)
    ensures
        quiet::parts_name(a + b, c) <==> quiet::parts_name(a, c) || quiet::parts_name(b, c),
{
    let names = |t: Seq<char>|
        match quiet::cpu_part(t) {
            CpuPart::Range(lo, hi) => lo <= c <= hi,
            _ => false,
        };
    if quiet::parts_name(a, c) {
        let i = choose|i: int| 0 <= i < a.len() && names(#[trigger] a[i]);
        assert((a + b)[i] == a[i]);
    }
    if quiet::parts_name(b, c) {
        let i = choose|i: int| 0 <= i < b.len() && names(#[trigger] b[i]);
        assert((a + b)[a.len() + i] == b[i]);
    }
    if quiet::parts_name(a + b, c) {
        let i = choose|i: int| 0 <= i < (a + b).len() && names(#[trigger] (a + b)[i]);
        if i < a.len() {
            assert(a[i] == (a + b)[i]);
        } else {
            assert(b[i - a.len()] == (a + b)[i]);
        }
    }
}

/// The first thing wrong with two lists of parts.
proof fn lemma_first_wrong_add(a: Seq<Seq<char>>, b: Seq<Seq<char>>)
    ensures
        quiet::first_wrong(a + b) == if quiet::first_wrong(a) is Some {
            quiet::first_wrong(a)
        } else {
            quiet::first_wrong(b)
        },
    decreases b.len(),
{
    if b.len() == 0 {
        assert(a + b =~= a);
    } else {
        lemma_first_wrong_add(a, b.drop_last());
        assert((a + b).drop_last() =~= a + b.drop_last());
        assert((a + b).last() == b.last());
    }
}

/// What is wrong with a part is never that nothing is named.
proof fn lemma_first_wrong_kind(parts: Seq<Seq<char>>)
    ensures
        quiet::first_wrong(parts) matches Some(e) ==> !(e is Empty),
    decreases parts.len(),
{
    if parts.len() > 0 {
        lemma_first_wrong_kind(parts.drop_last());
    }
}

/// A list of one part that holds a text where a CPU number should be is
/// refused for that text, trimmed; one of nothing but white space names no CPU
/// at all.
pub proof fn law_what_is_no_number_is_refused(t: Seq<char>)
    requires
        !t.contains(','),
        !text::trimmed(t).contains('-'),
    ensures
        text::trimmed(t).len() == 0 ==> quiet::list_error(t) == Some(CpuListErrorView::Empty),
        text::trimmed(t).len() > 0 && text::number_up_to(text::trimmed(t), usize::MAX as nat) is None
            ==> quiet::list_error(t) == Some(CpuListErrorView::BadNumber(text::trimmed(t))),
        text::number_up_to(text::trimmed(t), usize::MAX as nat) matches Some(n) ==> quiet::list_error(
            t,
        ) is None && quiet::names_cpu(t, n),
{
    let part = text::trimmed(t);
    assert forall|k: int| 0 <= k < part.len() implies part[k] != '-' by {
        if part[k] == '-' {
            assert(part.contains('-'));
        }
    }
    text::lemma_first_index_is(part, '-', part.len() as int);
    if let Some(n) = text::number_up_to(part, usize::MAX as nat) {
        lemma_single(t, n);
    } else {
        lemma_single(t, 0);
    }
}

/// A run of CPUs is written down by its ends alone, and a lone CPU by its
/// number; after a gap a comma follows.
pub proof fn law_runs_are_written_by_their_ends(a: usize, b: usize, rest: Seq<usize>)
    requires
        a <= b,
        rest.len() > 0 ==> rest[0] > b + 1,
    ensures
        ({
            let run = Seq::new((b - a + 1) as nat, |i: int| (a + i) as usize);
            let ends = if a == b {
                text::decimal(a as nat)
            } else {
                text::decimal(a as nat) + seq!['-'] + text::decimal(b as nat)
            };
            &&& quiet::cpu_list_text(run) == ends
            &&& rest.len() > 0 ==> quiet::cpu_list_text(run + rest) == ends + seq![',']
                + quiet::cpu_list_text(rest)
        }),
{
    let run = Seq::new((b - a + 1) as nat, |i: int| (a + i) as usize);
    let n = run.len() as int;
    let none = Seq::<usize>::empty();
    lemma_run_of(run, none);
    lemma_run_of(run, rest);
    assert(run + none =~= run);
    assert(run.skip(n) =~= none);
    assert(quiet::run_texts(none) =~= Seq::<Seq<char>>::empty()) by {
        reveal_with_fuel(quiet::run_texts, 1);
        assert(quiet::run_length(none) == 0);
    }
    let first = quiet::run_text(a as nat, b as nat);
    assert(quiet::run_texts(run) =~= seq![first]);
    reveal_with_fuel(text::joined, 2);
    if rest.len() > 0 {
        assert((run + rest).skip(n) =~= rest);
        let all = quiet::run_texts(run + rest);
        assert((run + rest)[0] == a && (run + rest)[n - 1] == b);
        assert(all == seq![first] + quiet::run_texts(rest));
        quiet::lemma_run_length(rest);
        assert(quiet::run_texts(rest).len() > 0);
        text_laws::lemma_joined_first(all, seq![',']);
        assert(all.drop_first() =~= quiet::run_texts(rest));
    }
}

/// How long a run is that starts a list.
proof fn lemma_run_of(run: Seq<usize>, rest: Seq<usize>)
    requires
        run.len() > 0,
        forall|i: int| 0 <= i < run.len() ==> #[trigger] run[i] == run[0] + i,
        rest.len() > 0 ==> rest[0] > run.last() + 1,
    ensures
        quiet::run_length(run + rest) == run.len(),
    decreases run.len(),
{
    let s = run + rest;
    if run.len() == 1 {
        if rest.len() > 0 {
            assert(s[1] == rest[0]);
        }
    } else {
        let tail = run.drop_first();
        assert(s.drop_first() =~= tail + rest);
        assert(s[1] == run[1] && run[1] == run[0] + 1);
        assert forall|i: int| 0 <= i < tail.len() implies #[trigger] tail[i] == tail[0] + i by {
            assert(tail[i] == run[i + 1]);
        }
        lemma_run_of(tail, rest);
    }
}

/// A thread is pinned exactly where a reservation and its own CPUs can both
/// be read and are the same CPUs, however they are written. Where they are not
/// the reservation is reported beside what the thread has.
pub proof fn law_pinned_means_the_same_cpus(
    reserved: Option<Seq<char>>,
    affinity: Option<Seq<char>>,
)
    ensures
        quiet::status_of(true, reserved, affinity) is Pinned <==> {
            &&& reserved matches Some(cpus) && quiet::list_error(cpus) is None
            &&& affinity matches Some(have) && quiet::list_error(have) is None
            &&& forall|c: usize| #[trigger]
                quiet::names_cpu(reserved->0, c as nat) <==> quiet::names_cpu(
                    affinity->0,
                    c as nat,
                )
        },
        quiet::status_of(true, reserved, affinity) is NotQuiesced <==> reserved is None
            || affinity is None || quiet::list_error(reserved->0) is Some,
        quiet::status_of(true, reserved, affinity) matches StatusView::Pinned { cpus } ==> reserved
            == Some(cpus),
        quiet::status_of(true, reserved, affinity) matches StatusView::Reserved {
            cpus,
            affinity: have,
        } ==> reserved == Some(cpus) && affinity == Some(have),
        quiet::status_of(false, reserved, affinity) is Unsupported,
{
}

/// The environment comes before the file: the file has a say only where the
/// environment names nothing but white space, or nothing at all. What is
/// reported is trimmed and never blank.
pub proof fn law_the_environment_comes_first(
    variable: Seq<char>,
    file: Option<Seq<char>>,
)
    ensures
        text::trimmed(variable).len() > 0 ==> quiet::reservation(Some(variable), file) == Some(
            text::trimmed(variable),
        ),
        text::trimmed(variable).len() == 0 ==> quiet::reservation(Some(variable), file)
            == quiet::reservation(None, file),
        quiet::reservation(None, Some(variable)) == if text::trimmed(variable).len() == 0 {
            None
        } else {
            Some(text::trimmed(variable))
        },
        quiet::reservation(None, None) is None,
        quiet::reservation(Some(variable), file) matches Some(list) ==> list.len() > 0,
{
}

/// A thread pins itself exactly where it has not yet, where that works at
/// all, where a `1` does not forbid it, and where the environment gives a list
/// that can be read; and then to that list.
pub proof fn law_when_a_thread_pins_itself(
    already: bool,
    supported: bool,
    no_pin: Option<Seq<char>>,
    variable: Option<Seq<char>>,
    list: Seq<char>,
)
    ensures
        quiet::pin_list(already, supported, no_pin, variable) == Some(list) <==> {
            &&& !already
            &&& supported
            &&& no_pin != Some(seq!['1'])
            &&& variable == Some(list)
            &&& quiet::list_error(list) is None
        },
{
    reveal_strlit("1");
    assert("1"@ =~= seq!['1']);
}

/// A status says which CPUs are reserved first, and what the thread has at
/// the end.
pub proof fn law_a_status_says_its_lists(cpus: Seq<char>, have: Seq<char>)
    ensures
        (StatusView::Pinned { cpus }).sentence() == "pinned to reserved CPU(s) "@ + cpus,
        ({
            let said = (StatusView::Reserved { cpus, affinity: have }).sentence();
            &&& text::stands_at(said, "CPU(s) "@ + cpus + " are reserved"@, 0)
            &&& said.len() > have.len()
            &&& said.skip(said.len() - have.len()) == have
        }),
        text::stands_at(StatusView::NotQuiesced.sentence(), "machine is not quiesced"@, 0),
        StatusView::Unsupported.sentence() == "CPU reservation is only supported on Linux"@,
{
    reveal_strlit("machine is not quiesced");
    reveal_strlit(
        "machine is not quiesced (see `quiet-bench reserve`); timings will include whatever else it is doing",
    );
    let quiet = "machine is not quiesced"@;
    assert(StatusView::NotQuiesced.sentence().subrange(0, quiet.len() as int) =~= quiet);
    let said = (StatusView::Reserved { cpus, affinity: have }).sentence();
    let head = "CPU(s) "@ + cpus + " are reserved"@;
    reveal_strlit(" are reserved but this thread may run on ");
    reveal_strlit(" are reserved");
    assert(said.subrange(0, head.len() as int) =~= head);
    assert(said.skip(said.len() - have.len()) =~= have);
}

/// What is wrong with a CPU list is said by its kind, before the text it is
/// about.
pub proof fn law_what_is_said_of_a_wrong_list(s: Seq<char>, shown: Seq<char>)
    ensures
        quiet::complaint(CpuListErrorView::BadNumber(s), shown) == "bad CPU number "@ + shown,
        quiet::complaint(CpuListErrorView::Descending(s), shown) == "descending CPU range "@
            + shown,
        quiet::complaint(CpuListErrorView::Empty, shown) == "empty CPU list"@,
        quiet::subject(CpuListErrorView::BadNumber(s)) == s,
        quiet::subject(CpuListErrorView::Descending(s)) == s,
{
}

/// What a part with a dash says. What stands before the first dash and what
/// stands after it are numbers, white space around them left out; the first that
/// is none is refused, and so are numbers that go down.
pub proof fn law_what_a_range_says(t: Seq<char>, x: Seq<char>, y: Seq<char>, c: nat)
    requires
        !t.contains(','),
        text::trimmed(t) == x + seq!['-'] + y,
        !x.contains('-'),
    ensures
        ({
            let lo = text::number_up_to(text::trimmed(x), usize::MAX as nat);
            let hi = text::number_up_to(text::trimmed(y), usize::MAX as nat);
            &&& lo is None ==> quiet::list_error(t) == Some(
                CpuListErrorView::BadNumber(text::trimmed(x)),
            )
            &&& lo is Some && hi is None ==> quiet::list_error(t) == Some(
                CpuListErrorView::BadNumber(text::trimmed(y)),
            )
            &&& lo is Some && hi is Some && hi->0 < lo->0 ==> quiet::list_error(t) == Some(
                CpuListErrorView::Descending(text::trimmed(t)),
            )
            &&& lo is Some && hi is Some && lo->0 <= hi->0 ==> quiet::list_error(t) is None && (
            quiet::names_cpu(t, c) <==> lo->0 <= c <= hi->0)
        }),
{
    let part = text::trimmed(t);
    let n = x.len() as int;
    assert(part[n] == '-');
    assert forall|k: int| 0 <= k < n implies part[k] != '-' by {
        assert(part[k] == x[k]);
        if x[k] == '-' {
            assert(x.contains('-'));
        }
    }
    text::lemma_first_index_is(part, '-', n);
    assert(part.take(n) =~= x);
    assert(part.skip(n + 1) =~= y);
    lemma_single(t, c);
}

} // verus!
