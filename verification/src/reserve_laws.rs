//! What holds of every reservation and every restoration.

use crate::invariance;
use crate::lists;
use crate::quiet;
use crate::reorder;
use crate::reserve;
use crate::reserve::{RequestView, SettingsView, StepView};
use crate::text;
use crate::text_laws;
use vstd::prelude::*;

verus! {

/// Whether one of `steps` writes `contents` to `path`.
pub open spec fn writes(steps: Seq<StepView>, path: Seq<char>, contents: Seq<char>) -> bool {
    steps.contains(StepView::Put { path, contents }) || steps.contains(
        StepView::PutQuietly { path, contents },
    )
}

/// Whether `a` is among `steps` somewhere before `b`.
pub open spec fn comes_before(steps: Seq<StepView>, a: StepView, b: StepView) -> bool {
    exists|i: int, j: int|
        0 <= i < j < steps.len() && #[trigger] steps[i] == a && #[trigger] steps[j] == b
}

/// Whether `path` is the file `tail` of CPU `c`.
pub open spec fn is_cpu_file(path: Seq<char>, c: nat, tail: Seq<char>) -> bool {
    path == "/sys/devices/system/cpu/cpu"@ + text::decimal(c) + tail
}

/// Whether CPU `c` shares a core with a reserved CPU and is not reserved.
pub open spec fn is_idle_sibling(bench: Seq<usize>, siblings: Seq<Seq<usize>>, c: usize) -> bool {
    !bench.contains(c) && exists|i: int|
        0 <= i < bench.len() && #[trigger] siblings[i].contains(c)
}

/// What two lists of steps one after the other write.
proof fn lemma_writes_add(a: Seq<StepView>, b: Seq<StepView>)
    ensures
        forall|path: Seq<char>, contents: Seq<char>| #[trigger]
            writes(a + b, path, contents) <==> writes(a, path, contents) || writes(
                b,
                path,
                contents,
            ),
{
    assert forall|path: Seq<char>, contents: Seq<char>| #[trigger]
        writes(a + b, path, contents) <==> writes(a, path, contents) || writes(
            b,
            path,
            contents,
        ) by {
        invariance::lemma_contains_add(a, b, StepView::Put { path, contents });
        invariance::lemma_contains_add(a, b, StepView::PutQuietly { path, contents });
    }
}

/// What giving every CPU a setting writes, and that it does nothing else.
proof fn lemma_everywhere(ncpu: usize, tail: Seq<char>, contents: Seq<char>)
    ensures
        forall|p: Seq<char>, t: Seq<char>| #[trigger]
            writes(reserve::everywhere(ncpu, tail, contents), p, t) <==> t == contents
                && exists|c: nat| c < ncpu && #[trigger] is_cpu_file(p, c, tail),
        forall|x: StepView| #[trigger]
            reserve::everywhere(ncpu, tail, contents).contains(x) ==> x is PutQuietly,
{
    let all = reserve::everywhere(ncpu, tail, contents);
    assert forall|p: Seq<char>, t: Seq<char>| #[trigger]
        writes(all, p, t) <==> t == contents && exists|c: nat|
            c < ncpu && #[trigger] is_cpu_file(p, c, tail) by {
        if writes(all, p, t) {
            let x = StepView::PutQuietly { path: p, contents: t };
            assert(all.contains(x));
            let c = choose|c: int| 0 <= c < all.len() && all[c] == x;
            assert(is_cpu_file(p, c as nat, tail));
        }
        if t == contents && exists|c: nat| c < ncpu && #[trigger] is_cpu_file(p, c, tail) {
            let c = choose|c: nat| c < ncpu && #[trigger] is_cpu_file(p, c, tail);
            assert(all[c as int] == StepView::PutQuietly { path: p, contents: t });
        }
    }
}

/// The steps that take siblings offline.
proof fn lemma_siblings_offline(bench: Seq<usize>, siblings: Seq<Seq<usize>>, k: int)
    requires
        0 <= k <= bench.len(),
        siblings.len() == bench.len(),
    ensures
        forall|x: StepView| #[trigger]
            reserve::siblings_offline(bench, siblings, k).contains(x) <==> exists|i: int, sib: usize|
                0 <= i < k && !bench.contains(sib) && #[trigger] siblings[i].contains(sib)
                    && reserve::take_offline(sib, bench[i]).contains(x),
    decreases k,
{
    if k > 0 {
        lemma_siblings_offline(bench, siblings, k - 1);
        let before = reserve::siblings_offline(bench, siblings, k - 1);
        let (c, row) = (bench[k - 1], siblings[k - 1]);
        let last = reserve::row_offline(bench, c, row);
        let f = |sib: usize|
            if bench.contains(sib) {
                Seq::empty()
            } else {
                reserve::take_offline(sib, c)
            };
        assert(last == lists::gathered(row, f));
        reorder::lemma_gathered_contains(row, f);
        assert forall|x: StepView| #[trigger]
            reserve::siblings_offline(bench, siblings, k).contains(x) <==> exists|
                i: int,
                sib: usize,
            |
                0 <= i < k && !bench.contains(sib) && #[trigger] siblings[i].contains(sib)
                    && reserve::take_offline(sib, bench[i]).contains(x) by {
            invariance::lemma_contains_add(before, last, x);
            if last.contains(x) {
                let j = choose|j: int| 0 <= j < row.len() && #[trigger] f(row[j]).contains(x);
                assert(siblings[k - 1].contains(row[j]));
            }
            if exists|i: int, sib: usize|
                0 <= i < k && !bench.contains(sib) && #[trigger] siblings[i].contains(sib)
                    && reserve::take_offline(sib, bench[i]).contains(x) {
                let (i, sib) = choose|i: int, sib: usize|
                    0 <= i < k && !bench.contains(sib) && #[trigger] siblings[i].contains(sib)
                        && reserve::take_offline(sib, bench[i]).contains(x);
                if i == k - 1 {
                    let j = choose|j: int| 0 <= j < row.len() && row[j] == sib;
                    assert(f(row[j]).contains(x));
                }
            }
        }
    }
}

/// Every write of a reservation, by where it goes and what is written: turbo
/// off and the clock at its top where there is a driver for it, every governor
/// at `performance`, every sibling of a reserved CPU that is not reserved
/// itself offline, interrupts to the mask of the others, and the address
/// layout and the counters opened up. Nothing else is written.
pub proof fn law_what_a_reservation_writes(
    bench: Seq<usize>,
    other: Seq<usize>,
    siblings: Seq<Seq<usize>>,
    ncpu: usize,
    has_pstate: bool,
    mask: Seq<char>,
    canonical: Seq<char>,
    path: Seq<char>,
    contents: Seq<char>,
)
    requires
        siblings.len() == bench.len(),
    ensures
        writes(
            reserve::reserve_steps(bench, other, siblings, ncpu, has_pstate, mask, canonical),
            path,
            contents,
        ) <==> {
            ||| has_pstate && path == "/sys/devices/system/cpu/intel_pstate/no_turbo"@ && contents
                == "1"@
            ||| has_pstate && path == "/sys/devices/system/cpu/intel_pstate/min_perf_pct"@
                && contents == "100"@
            ||| contents == "performance"@ && exists|c: nat|
                c < ncpu && #[trigger] is_cpu_file(path, c, "/cpufreq/scaling_governor"@)
            ||| contents == "0"@ && exists|c: usize|
                is_idle_sibling(bench, siblings, c) && #[trigger] is_cpu_file(
                    path,
                    c as nat,
                    "/online"@,
                )
            ||| path == "/proc/irq/default_smp_affinity"@ && contents == mask
            ||| path == "/proc/sys/kernel/randomize_va_space"@ && contents == "0"@
            ||| path == "/proc/sys/kernel/perf_event_paranoid"@ && contents == "-1"@
        },
{
    let clock = reserve::pin_clock(has_pstate);
    let governors = reserve::everywhere(ncpu, "/cpufreq/scaling_governor"@, "performance"@);
    let gone = reserve::siblings_offline(bench, siblings, bench.len() as int);
    let away = reserve::clear_away(other, mask);
    let end = seq![StepView::Advertise(canonical)];
    lemma_everywhere(ncpu, "/cpufreq/scaling_governor"@, "performance"@);
    lemma_siblings_offline(bench, siblings, bench.len() as int);
    lemma_writes_add(clock, governors);
    lemma_writes_add(clock + governors, gone);
    lemma_writes_add(clock + governors + gone, away);
    lemma_writes_add(clock + governors + gone + away, end);
    lemma_clock_writes(has_pstate, path, contents);
    lemma_away_writes(other, mask, path, contents);
    let put = StepView::Put { path, contents };
    let quiet = StepView::PutQuietly { path, contents };
    assert(!writes(end, path, contents)) by {
        if end.contains(put) {
            let i = choose|i: int| 0 <= i < end.len() && end[i] == put;
            assert(end[i] is Advertise);
        }
        if end.contains(quiet) {
            let i = choose|i: int| 0 <= i < end.len() && end[i] == quiet;
            assert(end[i] is Advertise);
        }
    }
    if writes(gone, path, contents) {
        let x = if gone.contains(put) {
            put
        } else {
            quiet
        };
        let (i, sib) = choose|i: int, sib: usize|
            0 <= i < bench.len() && !bench.contains(sib) && #[trigger] siblings[i].contains(sib)
                && reserve::take_offline(sib, bench[i]).contains(x);
        let two = reserve::take_offline(sib, bench[i]);
        let j = choose|j: int| 0 <= j < two.len() && two[j] == x;
        assert(j == 0);
        assert(is_cpu_file(path, sib as nat, "/online"@));
        assert(is_idle_sibling(bench, siblings, sib));
    }
    if contents == "0"@ && exists|c: usize|
        is_idle_sibling(bench, siblings, c) && #[trigger] is_cpu_file(path, c as nat, "/online"@) {
        let c = choose|c: usize|
            is_idle_sibling(bench, siblings, c) && #[trigger] is_cpu_file(
                path,
                c as nat,
                "/online"@,
            );
        let i = choose|i: int| 0 <= i < bench.len() && #[trigger] siblings[i].contains(c);
        let two = reserve::take_offline(c, bench[i]);
        assert(two[0] == quiet);
        assert(two.contains(quiet));
        assert(gone.contains(quiet));
    }
}

/// What pinning the clock writes.
proof fn lemma_clock_writes(has_pstate: bool, path: Seq<char>, contents: Seq<char>)
    ensures
        writes(reserve::pin_clock(has_pstate), path, contents) <==> has_pstate && {
            ||| path == "/sys/devices/system/cpu/intel_pstate/no_turbo"@ && contents == "1"@
            ||| path == "/sys/devices/system/cpu/intel_pstate/min_perf_pct"@ && contents == "100"@
        },
{
    let clock = reserve::pin_clock(has_pstate);
    let put = StepView::Put { path, contents };
    let quiet = StepView::PutQuietly { path, contents };
    lemma_pstate_paths();
    if has_pstate {
        if path == "/sys/devices/system/cpu/intel_pstate/no_turbo"@ && contents == "1"@ {
            assert(clock[0] == put);
        }
        if path == "/sys/devices/system/cpu/intel_pstate/min_perf_pct"@ && contents == "100"@ {
            assert(clock[1] == put);
        }
        assert(clock.len() == 2);
        assert(clock[0] is Put && clock[1] is Put);
    } else {
        assert(clock.len() == 1);
        assert(clock[0] is Note);
    }
}

/// Where the settings of the frequency driver are.
proof fn lemma_pstate_paths()
    ensures
        reserve::pstate_path("/no_turbo"@) == "/sys/devices/system/cpu/intel_pstate/no_turbo"@,
        reserve::pstate_path("/min_perf_pct"@)
            == "/sys/devices/system/cpu/intel_pstate/min_perf_pct"@,
{
    reveal_strlit("/sys/devices/system/cpu/intel_pstate");
    reveal_strlit("/sys/devices/system/cpu/intel_pstate/no_turbo");
    reveal_strlit("/sys/devices/system/cpu/intel_pstate/min_perf_pct");
    reveal_strlit("/no_turbo");
    reveal_strlit("/min_perf_pct");
    assert(reserve::pstate_path("/no_turbo"@)
        =~= "/sys/devices/system/cpu/intel_pstate/no_turbo"@);
    assert(reserve::pstate_path("/min_perf_pct"@)
        =~= "/sys/devices/system/cpu/intel_pstate/min_perf_pct"@);
}

/// What moving everything aside writes.
proof fn lemma_away_writes(
    other: Seq<usize>,
    mask: Seq<char>,
    path: Seq<char>,
    contents: Seq<char>,
)
    ensures
        writes(reserve::clear_away(other, mask), path, contents) <==> {
            ||| path == "/proc/irq/default_smp_affinity"@ && contents == mask
            ||| path == "/proc/sys/kernel/randomize_va_space"@ && contents == "0"@
            ||| path == "/proc/sys/kernel/perf_event_paranoid"@ && contents == "-1"@
        },
{
    let away = reserve::clear_away(other, mask);
    let put = StepView::Put { path, contents };
    let quiet = StepView::PutQuietly { path, contents };
    assert(away.len() == 7);
    assert(away[0] is ClearCpusets && away[1] is MoveTasks && away[2] is Balance);
    assert(away[4] is SteerInterrupts);
    assert(away[3] is PutQuietly && away[5] is PutQuietly && away[6] is PutQuietly);
    if path == "/proc/irq/default_smp_affinity"@ && contents == mask {
        assert(away[3] == quiet);
    }
    if path == "/proc/sys/kernel/randomize_va_space"@ && contents == "0"@ {
        assert(away[5] == quiet);
    }
    if path == "/proc/sys/kernel/perf_event_paranoid"@ && contents == "-1"@ {
        assert(away[6] == quiet);
    }
}

/// How the paths of a CPU's files start and end.
proof fn lemma_cpu_file_ends(path: Seq<char>, c: nat, tail: Seq<char>)
    requires
        is_cpu_file(path, c, tail),
        tail.len() > 0,
    ensures
        path.len() > 27,
        path[1] == 's',
        path[24] == 'c',
        path.last() == tail.last(),
{
    reveal_strlit("/sys/devices/system/cpu/cpu");
}

/// No two CPUs have a file in common.
proof fn lemma_cpu_files_differ(path: Seq<char>, c: nat, d: nat, tail: Seq<char>)
    requires
        is_cpu_file(path, c, tail),
        is_cpu_file(path, d, tail),
    ensures
        c == d,
{
    let head = "/sys/devices/system/cpu/cpu"@;
    let (a, b) = (text::decimal(c), text::decimal(d));
    assert(path.subrange(head.len() as int, path.len() - tail.len()) =~= a);
    assert(path.subrange(head.len() as int, path.len() - tail.len()) =~= b);
    text::lemma_decimal(c);
    text::lemma_decimal(d);
}

/// The settings that no CPU has for itself are not files of a CPU.
proof fn lemma_other_files(path: Seq<char>, c: nat, tail: Seq<char>)
    requires
        is_cpu_file(path, c, tail),
        tail.len() > 0,
    ensures
        path != "/sys/devices/system/cpu/intel_pstate/no_turbo"@,
        path != "/sys/devices/system/cpu/intel_pstate/min_perf_pct"@,
        path != "/proc/irq/default_smp_affinity"@,
        path != "/proc/sys/kernel/randomize_va_space"@,
        path != "/proc/sys/kernel/perf_event_paranoid"@,
{
    lemma_cpu_file_ends(path, c, tail);
    reveal_strlit("/sys/devices/system/cpu/intel_pstate/no_turbo");
    reveal_strlit("/sys/devices/system/cpu/intel_pstate/min_perf_pct");
    reveal_strlit("/proc/irq/default_smp_affinity");
    reveal_strlit("/proc/sys/kernel/randomize_va_space");
    reveal_strlit("/proc/sys/kernel/perf_event_paranoid");
    assert("/sys/devices/system/cpu/intel_pstate/no_turbo"@[24] == 'i');
    assert("/sys/devices/system/cpu/intel_pstate/min_perf_pct"@[24] == 'i');
    assert("/proc/irq/default_smp_affinity"@[1] == 'p');
    assert("/proc/sys/kernel/randomize_va_space"@[1] == 'p');
    assert("/proc/sys/kernel/perf_event_paranoid"@[1] == 'p');
}

/// The settings that no CPU has for itself are different files.
proof fn lemma_fixed_files_differ()
    ensures
        "/sys/devices/system/cpu/intel_pstate/no_turbo"@
            != "/sys/devices/system/cpu/intel_pstate/min_perf_pct"@,
        "/sys/devices/system/cpu/intel_pstate/no_turbo"@
            != "/proc/irq/default_smp_affinity"@,
        "/sys/devices/system/cpu/intel_pstate/no_turbo"@
            != "/proc/sys/kernel/randomize_va_space"@,
        "/sys/devices/system/cpu/intel_pstate/no_turbo"@
            != "/proc/sys/kernel/perf_event_paranoid"@,
        "/sys/devices/system/cpu/intel_pstate/min_perf_pct"@
            != "/proc/irq/default_smp_affinity"@,
        "/sys/devices/system/cpu/intel_pstate/min_perf_pct"@
            != "/proc/sys/kernel/randomize_va_space"@,
        "/sys/devices/system/cpu/intel_pstate/min_perf_pct"@
            != "/proc/sys/kernel/perf_event_paranoid"@,
        "/proc/irq/default_smp_affinity"@ != "/proc/sys/kernel/randomize_va_space"@,
        "/proc/irq/default_smp_affinity"@ != "/proc/sys/kernel/perf_event_paranoid"@,
        "/proc/sys/kernel/randomize_va_space"@ != "/proc/sys/kernel/perf_event_paranoid"@,
{
    reveal_strlit("/sys/devices/system/cpu/intel_pstate/no_turbo");
    reveal_strlit("/sys/devices/system/cpu/intel_pstate/min_perf_pct");
    reveal_strlit("/proc/irq/default_smp_affinity");
    reveal_strlit("/proc/sys/kernel/randomize_va_space");
    reveal_strlit("/proc/sys/kernel/perf_event_paranoid");
    assert("/sys/devices/system/cpu/intel_pstate/no_turbo"@[1] == 's');
    assert("/sys/devices/system/cpu/intel_pstate/min_perf_pct"@[1] == 's');
    assert("/proc/irq/default_smp_affinity"@[1] == 'p');
    assert("/proc/sys/kernel/randomize_va_space"@[1] == 'p');
    assert("/proc/sys/kernel/perf_event_paranoid"@[1] == 'p');
    assert("/sys/devices/system/cpu/intel_pstate/no_turbo"@[37] == 'n');
    assert("/sys/devices/system/cpu/intel_pstate/min_perf_pct"@[37] == 'm');
    assert("/proc/irq/default_smp_affinity"@[6] == 'i');
    assert("/proc/sys/kernel/randomize_va_space"@[6] == 's');
    assert("/proc/sys/kernel/perf_event_paranoid"@[6] == 's');
    assert("/proc/sys/kernel/randomize_va_space"@[17] == 'r');
    assert("/proc/sys/kernel/perf_event_paranoid"@[17] == 'p');
}

/// A governor is no switch that takes a CPU offline.
proof fn lemma_governor_or_switch(path: Seq<char>, c: nat, d: nat)
    ensures
        !(is_cpu_file(path, c, "/cpufreq/scaling_governor"@) && is_cpu_file(path, d, "/online"@)),
{
    reveal_strlit("/cpufreq/scaling_governor");
    reveal_strlit("/online");
    if is_cpu_file(path, c, "/cpufreq/scaling_governor"@) && is_cpu_file(path, d, "/online"@) {
        lemma_cpu_file_ends(path, c, "/cpufreq/scaling_governor"@);
        lemma_cpu_file_ends(path, d, "/online"@);
        assert("/cpufreq/scaling_governor"@.last() == 'r');
        assert("/online"@.last() == 'e');
    }
}

/// A reservation sets the governor of every CPU to `performance`, and never
/// to anything else.
pub proof fn law_every_governor_is_set_to_performance(
    bench: Seq<usize>,
    other: Seq<usize>,
    siblings: Seq<Seq<usize>>,
    ncpu: usize,
    has_pstate: bool,
    mask: Seq<char>,
    canonical: Seq<char>,
    c: nat,
    contents: Seq<char>,
)
    requires
        siblings.len() == bench.len(),
        c < ncpu,
    ensures
        ({
            let steps = reserve::reserve_steps(
                bench,
                other,
                siblings,
                ncpu,
                has_pstate,
                mask,
                canonical,
            );
            let governor = "/sys/devices/system/cpu/cpu"@ + text::decimal(c)
                + "/cpufreq/scaling_governor"@;
            writes(steps, governor, contents) <==> contents == "performance"@
        }),
{
    let path = "/sys/devices/system/cpu/cpu"@ + text::decimal(c) + "/cpufreq/scaling_governor"@;
    law_what_a_reservation_writes(
        bench,
        other,
        siblings,
        ncpu,
        has_pstate,
        mask,
        canonical,
        path,
        contents,
    );
    assert(is_cpu_file(path, c, "/cpufreq/scaling_governor"@));
    reveal_strlit("/cpufreq/scaling_governor");
    lemma_other_files(path, c, "/cpufreq/scaling_governor"@);
    assert forall|d: usize| !is_cpu_file(path, d as nat, "/online"@) by {
        lemma_governor_or_switch(path, c, d as nat);
    }
}

/// A reservation takes a CPU offline exactly where it shares a core with a
/// reserved one and is not reserved itself. In particular no reserved CPU goes
/// offline, and none is switched to anything else.
pub proof fn law_only_idle_siblings_go_offline(
    bench: Seq<usize>,
    other: Seq<usize>,
    siblings: Seq<Seq<usize>>,
    ncpu: usize,
    has_pstate: bool,
    mask: Seq<char>,
    canonical: Seq<char>,
    c: usize,
    contents: Seq<char>,
)
    requires
        siblings.len() == bench.len(),
    ensures
        ({
            let steps = reserve::reserve_steps(
                bench,
                other,
                siblings,
                ncpu,
                has_pstate,
                mask,
                canonical,
            );
            let switch = "/sys/devices/system/cpu/cpu"@ + text::decimal(c as nat) + "/online"@;
            &&& writes(steps, switch, contents) <==> contents == "0"@ && !bench.contains(c)
                && exists|i: int| 0 <= i < bench.len() && #[trigger] siblings[i].contains(c)
            &&& bench.contains(c) ==> !writes(steps, switch, contents)
        }),
{
    let path = "/sys/devices/system/cpu/cpu"@ + text::decimal(c as nat) + "/online"@;
    law_what_a_reservation_writes(
        bench,
        other,
        siblings,
        ncpu,
        has_pstate,
        mask,
        canonical,
        path,
        contents,
    );
    assert(is_cpu_file(path, c as nat, "/online"@));
    reveal_strlit("/online");
    lemma_other_files(path, c as nat, "/online"@);
    assert forall|d: nat| !is_cpu_file(path, d, "/cpufreq/scaling_governor"@) by {
        lemma_governor_or_switch(path, d, c as nat);
    }
    assert forall|d: usize| is_cpu_file(path, d as nat, "/online"@) implies d == c by {
        lemma_cpu_files_differ(path, c as nat, d as nat, "/online"@);
    }
}

/// What a reservation does besides writing. Tasks move to the CPUs that are
/// left, once, and after leftover CPU sets are cleared; the balancing of
/// interrupts stops before they are steered by the mask; what there is to note
/// about the clock and the siblings comes before all that; and the reservation
/// is advertised once, at the very end.
pub proof fn law_what_else_a_reservation_does(
    bench: Seq<usize>,
    other: Seq<usize>,
    siblings: Seq<Seq<usize>>,
    ncpu: usize,
    has_pstate: bool,
    mask: Seq<char>,
    canonical: Seq<char>,
)
    requires
        siblings.len() == bench.len(),
    ensures
        ({
            let steps = reserve::reserve_steps(
                bench,
                other,
                siblings,
                ncpu,
                has_pstate,
                mask,
                canonical,
            );
            &&& steps.last() == StepView::Advertise(canonical)
            &&& forall|i: int| 0 <= i < steps.len() - 1 ==> !(#[trigger] steps[i] is Advertise)
            &&& forall|i: int|
                0 <= i < steps.len() ==> match #[trigger] steps[i] {
                    StepView::MoveTasks(to) => to == other,
                    StepView::Balance(on) => !on,
                    StepView::SteerInterrupts(to) => to == mask,
                    StepView::Forget => false,
                    _ => true,
                }
            &&& comes_before(steps, StepView::ClearCpusets, StepView::MoveTasks(other))
            &&& comes_before(steps, StepView::Balance(false), StepView::SteerInterrupts(mask))
            &&& forall|i: int, j: int|
                #![trigger steps[i], steps[j]]
                0 <= i < steps.len() && 0 <= j < steps.len() && steps[i] is ClearCpusets && (
                steps[j] is Note || steps[j] is Put) ==> j < i
        }),
{
    let clock = reserve::pin_clock(has_pstate);
    let governors = reserve::everywhere(ncpu, "/cpufreq/scaling_governor"@, "performance"@);
    let gone = reserve::siblings_offline(bench, siblings, bench.len() as int);
    let away = reserve::clear_away(other, mask);
    let steps = reserve::reserve_steps(bench, other, siblings, ncpu, has_pstate, mask, canonical);
    let early = clock + governors + gone;
    lemma_everywhere(ncpu, "/cpufreq/scaling_governor"@, "performance"@);
    lemma_siblings_offline(bench, siblings, bench.len() as int);
    let n = early.len() as int;
    assert(away.len() == 7);
    assert(steps.len() == n + 8);
    assert forall|i: int| 0 <= i < n implies #[trigger] steps[i] is Put || steps[i] is PutQuietly
        || steps[i] is Note by {
        if i < clock.len() {
            assert(steps[i] == clock[i]);
        } else if i < clock.len() + governors.len() {
            assert(governors[i - clock.len()] == steps[i]);
            assert(governors.contains(steps[i]));
        } else {
            assert(gone[i - clock.len() - governors.len()] == steps[i]);
            assert(gone.contains(steps[i]));
            let (k, sib) = choose|k: int, sib: usize|
                0 <= k < bench.len() && !bench.contains(sib) && #[trigger] siblings[k].contains(sib)
                    && reserve::take_offline(sib, bench[k]).contains(steps[i]);
            let two = reserve::take_offline(sib, bench[k]);
            let j = choose|j: int| 0 <= j < two.len() && two[j] == steps[i];
            assert(two[0] is PutQuietly && two[1] is Note);
        }
    }
    assert forall|i: int| n <= i < n + 7 implies #[trigger] steps[i] == away[i - n] by {}
    assert forall|i: int| n <= i < n + 8 implies !(#[trigger] steps[i] is Note) && !(
    steps[i] is Put) by {
        if i < n + 7 {
            assert(steps[i] == away[i - n]);
        }
    }
    assert(steps[n] is ClearCpusets && steps[n + 1] == StepView::MoveTasks(other));
    assert(steps[n + 2] == StepView::Balance(false));
    assert(steps[n + 4] == StepView::SteerInterrupts(mask));
}

/// Every write of a restoration: each CPU online, each setting back at its
/// saved value, or at the common default where none was saved, and
/// interrupts to the mask. Nothing else is written.
pub proof fn law_what_a_restoration_writes(
    ncpu: usize,
    saved: SettingsView,
    has_pstate: bool,
    mask: Seq<char>,
    path: Seq<char>,
    contents: Seq<char>,
)
    ensures
        writes(reserve::restore_steps(ncpu, saved, has_pstate, mask), path, contents) <==> {
            ||| contents == "1"@ && exists|c: nat|
                c < ncpu && #[trigger] is_cpu_file(path, c, "/online"@)
            ||| (exists|c: nat|
                c < ncpu && #[trigger] is_cpu_file(path, c, "/cpufreq/scaling_governor"@))
                && match saved.governor {
                Some(v) => contents == v,
                None => contents == "powersave"@,
            }
            ||| has_pstate && path == "/sys/devices/system/cpu/intel_pstate/no_turbo"@
                && match saved.no_turbo {
                Some(v) => contents == v,
                None => contents == "0"@,
            }
            ||| has_pstate && path == "/sys/devices/system/cpu/intel_pstate/min_perf_pct"@
                && saved.min_perf_pct == Some(contents)
            ||| path == "/proc/sys/kernel/randomize_va_space"@ && match saved.randomize_va_space {
                Some(v) => contents == v,
                None => contents == "2"@,
            }
            ||| path == "/proc/sys/kernel/perf_event_paranoid"@ && match saved.perf_event_paranoid {
                Some(v) => contents == v,
                None => contents == "2"@,
            }
            ||| path == "/proc/irq/default_smp_affinity"@ && contents == mask
        },
{
    let governor = reserve::or_else(saved.governor, "powersave"@);
    let online = reserve::everywhere(ncpu, "/online"@, "1"@);
    let clock = reserve::free_clock(has_pstate, saved);
    let governors = reserve::everywhere(ncpu, "/cpufreq/scaling_governor"@, governor);
    let out = reserve::spread_out(reserve::everyone(ncpu), mask, saved);
    lemma_everywhere(ncpu, "/online"@, "1"@);
    lemma_everywhere(ncpu, "/cpufreq/scaling_governor"@, governor);
    lemma_writes_add(online, clock);
    lemma_writes_add(online + clock, governors);
    lemma_writes_add(online + clock + governors, out);
    lemma_pstate_paths();
    let quiet = StepView::PutQuietly { path, contents };
    assert(out.len() == 8);
    assert(out[0] is ClearCpusets && out[1] is MoveTasks && out[5] is SteerInterrupts);
    assert(out[6] is Balance && out[7] is Forget);
    assert(out[2] is PutQuietly && out[3] is PutQuietly && out[4] is PutQuietly);
    assert(writes(out, path, contents) <==> out[2] == quiet || out[3] == quiet || out[4] == quiet);
    assert(clock.len() > 0 ==> clock[0] is PutQuietly);
    assert(clock.len() > 1 ==> clock[1] is PutQuietly);
    assert(writes(clock, path, contents) <==> clock.len() > 0 && clock[0] == quiet || clock.len()
        > 1 && clock[1] == quiet);
}

/// What a restoration does besides writing. Every CPU comes back before
/// anything else is done; tasks may then run everywhere, once leftover CPU sets
/// are cleared; the balancing of interrupts starts again; and the reservation
/// is forgotten once, at the very end.
pub proof fn law_what_else_a_restoration_does(
    ncpu: usize,
    saved: SettingsView,
    has_pstate: bool,
    mask: Seq<char>,
)
    ensures
        ({
            let steps = reserve::restore_steps(ncpu, saved, has_pstate, mask);
            let all = Seq::new(ncpu as nat, |c: int| c as usize);
            &&& steps.len() > ncpu
            &&& forall|c: int|
                0 <= c < ncpu ==> match #[trigger] steps[c] {
                    StepView::PutQuietly { path, contents } => is_cpu_file(
                        path,
                        c as nat,
                        "/online"@,
                    ) && contents == "1"@,
                    _ => false,
                }
            &&& steps.last() is Forget
            &&& forall|i: int| 0 <= i < steps.len() - 1 ==> !(#[trigger] steps[i] is Forget)
            &&& forall|i: int|
                0 <= i < steps.len() ==> match #[trigger] steps[i] {
                    StepView::MoveTasks(to) => to == all,
                    StepView::Balance(on) => on,
                    StepView::SteerInterrupts(to) => to == mask,
                    StepView::Advertise(_) => false,
                    StepView::Note(_) => false,
                    StepView::Put { .. } => false,
                    _ => true,
                }
            &&& comes_before(steps, StepView::ClearCpusets, StepView::MoveTasks(all))
            &&& comes_before(steps, StepView::SteerInterrupts(mask), StepView::Balance(true))
        }),
{
    let steps = reserve::restore_steps(ncpu, saved, has_pstate, mask);
    let governor = reserve::or_else(saved.governor, "powersave"@);
    let online = reserve::everywhere(ncpu, "/online"@, "1"@);
    let clock = reserve::free_clock(has_pstate, saved);
    let governors = reserve::everywhere(ncpu, "/cpufreq/scaling_governor"@, governor);
    let all = Seq::new(ncpu as nat, |c: int| c as usize);
    assert(all =~= reserve::everyone(ncpu));
    let out = reserve::spread_out(all, mask, saved);
    let n = (online + clock + governors).len() as int;
    assert(out.len() == 8);
    assert forall|c: int| 0 <= c < ncpu implies #[trigger] steps[c] == online[c] by {}
    assert forall|i: int| 0 <= i < n implies #[trigger] steps[i] is PutQuietly by {
        if i < online.len() {
            assert(steps[i] == online[i]);
        } else if i < online.len() + clock.len() {
            assert(steps[i] == clock[i - online.len()]);
        } else {
            assert(steps[i] == governors[i - online.len() - clock.len()]);
        }
    }
    assert forall|i: int| n <= i < n + 8 implies #[trigger] steps[i] == out[i - n] by {}
    assert(steps[n] is ClearCpusets && steps[n + 1] == StepView::MoveTasks(all));
    assert(steps[n + 5] == StepView::SteerInterrupts(mask));
    assert(steps[n + 6] == StepView::Balance(true));
}

/// A restoration reaches everything a reservation wrote: each file that was
/// written to is written to again, provided that the siblings are on the
/// machine and the lowest clock was saved.
pub proof fn law_a_restoration_undoes_a_reservation(
    bench: Seq<usize>,
    other: Seq<usize>,
    siblings: Seq<Seq<usize>>,
    ncpu: usize,
    has_pstate: bool,
    mask: Seq<char>,
    canonical: Seq<char>,
    saved: SettingsView,
    all: Seq<char>,
    path: Seq<char>,
    contents: Seq<char>,
)
    requires
        siblings.len() == bench.len(),
        forall|i: int, c: usize|
            0 <= i < siblings.len() && #[trigger] siblings[i].contains(c) ==> c < ncpu,
        saved.min_perf_pct is Some,
        writes(
            reserve::reserve_steps(bench, other, siblings, ncpu, has_pstate, mask, canonical),
            path,
            contents,
        ),
    ensures
        exists|back: Seq<char>| #[trigger]
            writes(reserve::restore_steps(ncpu, saved, has_pstate, all), path, back),
{
    law_what_a_reservation_writes(
        bench,
        other,
        siblings,
        ncpu,
        has_pstate,
        mask,
        canonical,
        path,
        contents,
    );
    let back = if path == "/sys/devices/system/cpu/intel_pstate/no_turbo"@ {
        reserve::or_else(saved.no_turbo, "0"@)
    } else if path == "/sys/devices/system/cpu/intel_pstate/min_perf_pct"@ {
        saved.min_perf_pct->0
    } else if path == "/proc/irq/default_smp_affinity"@ {
        all
    } else if path == "/proc/sys/kernel/randomize_va_space"@ {
        reserve::or_else(saved.randomize_va_space, "2"@)
    } else if path == "/proc/sys/kernel/perf_event_paranoid"@ {
        reserve::or_else(saved.perf_event_paranoid, "2"@)
    } else if exists|c: nat| c < ncpu && #[trigger] is_cpu_file(path, c, "/online"@) {
        "1"@
    } else {
        reserve::or_else(saved.governor, "powersave"@)
    };
    if contents == "0"@ && exists|c: usize|
        is_idle_sibling(bench, siblings, c) && #[trigger] is_cpu_file(path, c as nat, "/online"@) {
        let c = choose|c: usize|
            is_idle_sibling(bench, siblings, c) && #[trigger] is_cpu_file(
                path,
                c as nat,
                "/online"@,
            );
        let d = c as nat;
        assert(d < ncpu && is_cpu_file(path, d, "/online"@));
        reveal_strlit("/online");
        lemma_other_files(path, d, "/online"@);
    }
    if exists|c: nat| c < ncpu && #[trigger] is_cpu_file(path, c, "/cpufreq/scaling_governor"@) {
        let c = choose|c: nat|
            c < ncpu && #[trigger] is_cpu_file(path, c, "/cpufreq/scaling_governor"@);
        assert forall|d: nat| !is_cpu_file(path, d, "/online"@) by {
            lemma_governor_or_switch(path, c, d);
        }
        reveal_strlit("/cpufreq/scaling_governor");
        lemma_other_files(path, c, "/cpufreq/scaling_governor"@);
    }
    lemma_fixed_files_differ();
    law_what_a_restoration_writes(ncpu, saved, has_pstate, all, path, back);
    assert(writes(reserve::restore_steps(ncpu, saved, has_pstate, all), path, back));
}

/// Each request is asked for by its own word, with as many arguments as it
/// takes, and anything else is not understood.
pub proof fn law_requests(args: Seq<Seq<char>>, list: Seq<char>)
    ensures
        reserve::requested(args) == RequestView::Reserve(list) <==> args == seq![
            "reserve"@,
            list,
        ],
        reserve::requested(args) is Restore <==> args == seq!["restore"@],
        reserve::requested(args) is Status <==> args == seq!["status"@],
        reserve::requested(args) is Run <==> args.len() >= 2 && args[0] == "run"@,
        reserve::requested(seq!["run"@, list] + args) == RequestView::Run(seq![list] + args),
        reserve::requested(args) matches RequestView::Run(argv) ==> args == seq!["run"@] + argv,
{
    reveal_strlit("reserve");
    reveal_strlit("restore");
    reveal_strlit("status");
    reveal_strlit("run");
    assert("reserve"@[2] == 's' && "reserve"@[3] == 'e' && "restore"@[3] == 't');
    assert("status"@.len() == 6 && "run"@.len() == 3);
    if args.len() == 2 {
        assert(args =~= seq![args[0], args[1]]);
    }
    if args.len() == 1 {
        assert(args =~= seq![args[0]]);
    }
    assert((seq!["run"@, list] + args).drop_first() =~= seq![list] + args);
    if args.len() > 0 {
        assert(args =~= seq![args[0]] + args.drop_first());
    }
}

/// A line of saved state gives its key the value after the `=`, whatever came
/// before it, and leaves every other key alone.
pub proof fn law_a_later_line_wins(
    lines: Seq<Seq<char>>,
    key: Seq<char>,
    value: Seq<char>,
    other: Seq<char>,
)
    requires
        reserve::plain_key(key),
        other != key,
    ensures
        reserve::saved_value(lines.push(key + seq!['='] + value), key) == Some(
            text::trimmed(value),
        ),
        reserve::saved_value(lines.push(key + seq!['='] + value), other) == reserve::saved_value(
            lines,
            other,
        ),
{
    let line = key + seq!['='] + value;
    assert(forall|k: int| 0 <= k < key.len() ==> line[k] == key[k]);
    text::lemma_trimmed_already(key);
    text::lemma_first_index_is(line, '=', key.len() as int);
    assert(line.take(key.len() as int) =~= key);
    assert(line.skip(key.len() as int + 1) =~= value);
    assert(lines.push(line).drop_last() =~= lines);
}

/// The CPU that is refused is the first of those asked for that the machine
/// does not have, and none is where it has them all.
pub proof fn law_the_first_missing_cpu_is_refused(
    bench: Seq<usize>,
    exists_at: Seq<bool>,
    i: int,
    c: usize,
)
    requires
        exists_at.len() == bench.len(),
        0 <= i <= bench.len(),
        i < bench.len() ==> !exists_at[i],
        forall|k: int| 0 <= k < i ==> exists_at[k],
    ensures
        reserve::first_missing(bench, exists_at, c) <==> i < bench.len() && c == bench[i],
{
    if reserve::first_missing(bench, exists_at, c) {
        let j = choose|j: int|
            0 <= j < bench.len() && #[trigger] bench[j] == c && !exists_at[j] && forall|k: int|
                0 <= k < j ==> #[trigger] exists_at[k];
        assert(j >= i);
        if i < j {
            assert(exists_at[i]);
        }
    }
    if i < bench.len() && c == bench[i] {
        assert(bench[i] == c);
    }
}

/// Everyone is every CPU of the machine, in order, and what is left for the
/// rest of the system goes upwards.
pub proof fn law_housekeeping_goes_upwards(bench: Seq<usize>, gone: Seq<usize>, ncpu: usize)
    ensures
        reserve::everyone(ncpu).len() == ncpu,
        forall|c: int| 0 <= c < ncpu ==> #[trigger] reserve::everyone(ncpu)[c] == c,
        quiet::increasing(reserve::housekeeping(bench, gone, ncpu)),
{
    let all = reserve::everyone(ncpu);
    let keep = |c: usize| !bench.contains(c) && !gone.contains(c);
    let at = reorder::lemma_filter_positions(all, keep);
    let left = reserve::housekeeping(bench, gone, ncpu);
    assert(left == all.filter(keep));
    assert forall|i: int, j: int|
        #![trigger left[i], left[j]]
        0 <= i < j < left.len() implies left[i] < left[j] by {
        assert(at[i] < at[j]);
        assert(left[i] == all[at[i]] && left[j] == all[at[j]]);
    }
}

/// Each setting that could be read is saved on a line of its own, under the
/// name it goes by, trimmed; what could not be read is not saved.
pub proof fn law_what_is_saved(s: SettingsView)
    ensures
        reserve::setting_entries(s).len() == (if s.no_turbo is Some {
            1int
        } else {
            0
        }) + (if s.min_perf_pct is Some {
            1int
        } else {
            0
        }) + (if s.governor is Some {
            1int
        } else {
            0
        }) + (if s.randomize_va_space is Some {
            1int
        } else {
            0
        }) + (if s.perf_event_paranoid is Some {
            1int
        } else {
            0
        }),
        s.no_turbo matches Some(v) ==> reserve::setting_entries(s).contains(
            ("no_turbo"@, text::trimmed(v)),
        ),
        s.min_perf_pct matches Some(v) ==> reserve::setting_entries(s).contains(
            ("min_perf_pct"@, text::trimmed(v)),
        ),
        s.governor matches Some(v) ==> reserve::setting_entries(s).contains(
            ("governor"@, text::trimmed(v)),
        ),
        s.randomize_va_space matches Some(v) ==> reserve::setting_entries(s).contains(
            ("randomize_va_space"@, text::trimmed(v)),
        ),
        s.perf_event_paranoid matches Some(v) ==> reserve::setting_entries(s).contains(
            ("perf_event_paranoid"@, text::trimmed(v)),
        ),
{
    let a = reserve::entry("no_turbo"@, s.no_turbo);
    let b = reserve::entry("min_perf_pct"@, s.min_perf_pct);
    let c = reserve::entry("governor"@, s.governor);
    let d = reserve::entry("randomize_va_space"@, s.randomize_va_space);
    let e = reserve::entry("perf_event_paranoid"@, s.perf_event_paranoid);
    let all = a + b + c + d + e;
    assert(reserve::setting_entries(s) == all);
    let (nb, nc) = (a.len() as int, (a + b).len() as int);
    let (nd, ne) = ((a + b + c).len() as int, (a + b + c + d).len() as int);
    if s.no_turbo is Some {
        assert(all[0] == a[0]);
    }
    if s.min_perf_pct is Some {
        assert(all[nb] == b[0]);
    }
    if s.governor is Some {
        assert(all[nc] == c[0]);
    }
    if s.randomize_va_space is Some {
        assert(all[nd] == d[0]);
    }
    if s.perf_event_paranoid is Some {
        assert(all[ne] == e[0]);
    }
}

/// Saved state has a line for each setting: its name, `=`, and its value.
pub proof fn law_how_settings_are_saved(entries: Seq<(Seq<char>, Seq<char>)>, i: int)
    requires
        0 <= i < entries.len(),
    ensures
        text::has_part(
            reserve::state_text(entries),
            entries[i].0 + seq!['='] + entries[i].1 + seq!['\n'],
        ),
        reserve::state_text(entries.take(i) + seq![entries[i]]) == reserve::state_text(
            entries.take(i),
        ) + entries[i].0 + seq!['='] + entries[i].1 + seq!['\n'],
    decreases entries.len(),
{
    let f = |e: (Seq<char>, Seq<char>)| reserve::state_line(e) + seq!['\n'];
    let line = entries[i].0 + seq!['='] + entries[i].1 + seq!['\n'];
    assert(f(entries[i]) == line);
    reorder::lemma_gathered_add(entries.take(i), seq![entries[i]], f);
    reveal_with_fuel(lists::gathered, 2);
    assert(seq![entries[i]].drop_last() =~= Seq::<(Seq<char>, Seq<char>)>::empty());
    assert(lists::gathered(seq![entries[i]], f) =~= line);
    let before = reserve::state_text(entries.take(i));
    assert(reserve::state_text(entries.take(i) + seq![entries[i]]) =~= before + entries[i].0
        + seq!['='] + entries[i].1 + seq!['\n']);
    let rest = entries.skip(i + 1);
    reorder::lemma_gathered_add(entries.take(i) + seq![entries[i]], rest, f);
    assert(entries.take(i) + seq![entries[i]] + rest =~= entries);
    let after = reserve::state_text(rest);
    assert(reserve::state_text(entries) =~= before + line + after);
    text_laws::law_a_part_stands_between(reserve::state_text(entries), line);
}

/// What is said of a reservation names the CPUs reserved first, and the others
/// where it tells what runs on them.
pub proof fn law_a_reservation_is_announced(bench: Seq<char>, other: Seq<char>)
    ensures
        text::stands_at(
            reserve::ready_text(bench, other),
            "\nready: CPU(s) "@ + bench + " reserved\n"@,
            0,
        ),
        text::has_part(
            reserve::ready_text(bench, other),
            "housekeeping CPUs ("@ + other + ") "@,
        ),
{
    let said = reserve::ready_text(bench, other);
    let head = "\nready: CPU(s) "@ + bench + " reserved\n"@;
    reveal_strlit(
        " reserved\n\nRun benchmarks through the pinning wrapper (as your normal user):\n\n  bench-quiet run cargo test --release\n\nAnything not run that way lands on the housekeeping CPUs (",
    );
    reveal_strlit(" reserved\n");
    reveal_strlit(") \nand gains nothing.\n\nUndo with:  sudo bench-quiet restore");
    reveal_strlit("housekeeping CPUs (");
    reveal_strlit(") ");
    let how = reserve::how_to_run();
    assert(said.subrange(0, head.len() as int) =~= head);
    let n = how.len() - "housekeeping CPUs ("@.len();
    let end = ") \nand gains nothing.\n\nUndo with:  sudo bench-quiet restore"@;
    let part = "housekeeping CPUs ("@ + other + ") "@;
    assert(how.skip(n) =~= "housekeeping CPUs ("@);
    let before = "\nready: CPU(s) "@ + bench + how.take(n);
    assert(said =~= before + part + end.skip(2));
    text_laws::law_a_part_stands_between(said, part);
}

/// A refusal names the CPU that is missing.
pub proof fn law_a_refusal_names_the_cpu(c: usize)
    ensures
        (reserve::ReserveError::NoSuchCpu(c)).sentence() == "no such CPU: "@ + text::decimal(
            c as nat,
        ),
        text::stands_at(
            (reserve::ReserveError::NothingLeft).sentence(),
            "reserving these CPU(s) would offline every remaining CPU"@,
            0,
        ),
{
    reveal_strlit("reserving these CPU(s) would offline every remaining CPU");
    reveal_strlit(
        "reserving these CPU(s) would offline every remaining CPU via their SMT siblings, leaving nothing for the rest of the system; reserve fewer CPUs or include their siblings in the reservation",
    );
    let head = "reserving these CPU(s) would offline every remaining CPU"@;
    let all = (reserve::ReserveError::NothingLeft).sentence();
    assert(all.subrange(0, head.len() as int) =~= head);
}

/// What a reservation tells the user by itself: that the clock was left alone
/// where it has no driver, and of each sibling taken offline whose sibling it
/// is. It minds a failing write exactly where that pins the clock.
pub proof fn law_what_a_reservation_notes(
    bench: Seq<usize>,
    other: Seq<usize>,
    siblings: Seq<Seq<usize>>,
    ncpu: usize,
    has_pstate: bool,
    mask: Seq<char>,
    canonical: Seq<char>,
    said: Seq<char>,
    path: Seq<char>,
    contents: Seq<char>,
)
    requires
        siblings.len() == bench.len(),
    ensures
        ({
            let steps = reserve::reserve_steps(
                bench,
                other,
                siblings,
                ncpu,
                has_pstate,
                mask,
                canonical,
            );
            &&& steps.contains(StepView::Note(said)) <==> {
                ||| !has_pstate && said
                    == "no intel_pstate: turbo and minimum frequency left alone"@
                ||| exists|i: int, sib: usize|
                    0 <= i < bench.len() && !bench.contains(sib) && #[trigger] siblings[i].contains(
                        sib,
                    ) && said == "offlined SMT sibling cpu"@ + text::decimal(sib as nat)
                        + " of cpu"@ + text::decimal(bench[i] as nat)
            }
            &&& steps.contains(StepView::Put { path, contents }) <==> has_pstate && {
                ||| path == "/sys/devices/system/cpu/intel_pstate/no_turbo"@ && contents == "1"@
                ||| path == "/sys/devices/system/cpu/intel_pstate/min_perf_pct"@ && contents
                    == "100"@
            }
        }),
{
    let clock = reserve::pin_clock(has_pstate);
    let governors = reserve::everywhere(ncpu, "/cpufreq/scaling_governor"@, "performance"@);
    let gone = reserve::siblings_offline(bench, siblings, bench.len() as int);
    let away = reserve::clear_away(other, mask);
    let end = seq![StepView::Advertise(canonical)];
    let note = StepView::Note(said);
    let put = StepView::Put { path, contents };
    lemma_everywhere(ncpu, "/cpufreq/scaling_governor"@, "performance"@);
    lemma_siblings_offline(bench, siblings, bench.len() as int);
    lemma_clock_writes(has_pstate, path, contents);
    lemma_five_parts(clock, governors, gone, away, end, note);
    lemma_five_parts(clock, governors, gone, away, end, put);
    assert(away.len() == 7);
    assert forall|i: int| 0 <= i < 7 implies !(#[trigger] away[i] is Note) && !(
    away[i] is Put) by {}
    assert(!away.contains(note) && !away.contains(put));
    assert(!end.contains(note) && !end.contains(put)) by {
        assert(end[0] is Advertise);
    }
    assert(!governors.contains(note) && !governors.contains(put));
    if has_pstate {
        assert(clock.len() == 2 && clock[0] is Put && clock[1] is Put);
        assert(!clock.contains(StepView::PutQuietly { path, contents }));
    } else {
        assert(clock.len() == 1 && clock[0]
            == StepView::Note("no intel_pstate: turbo and minimum frequency left alone"@));
    }
    if gone.contains(put) {
        let (i, sib) = choose|i: int, sib: usize|
            0 <= i < bench.len() && !bench.contains(sib) && #[trigger] siblings[i].contains(sib)
                && reserve::take_offline(sib, bench[i]).contains(put);
        let two = reserve::take_offline(sib, bench[i]);
        assert(two.len() == 2 && two[0] is PutQuietly && two[1] is Note);
    }
    if gone.contains(note) {
        let (i, sib) = choose|i: int, sib: usize|
            0 <= i < bench.len() && !bench.contains(sib) && #[trigger] siblings[i].contains(sib)
                && reserve::take_offline(sib, bench[i]).contains(note);
        let two = reserve::take_offline(sib, bench[i]);
        assert(two.len() == 2 && two[0] is PutQuietly);
        assert(two[1] == note);
    }
    assert forall|i: int, sib: usize|
        0 <= i < bench.len() && !bench.contains(sib) && #[trigger] siblings[i].contains(sib) && said
            == "offlined SMT sibling cpu"@ + text::decimal(sib as nat) + " of cpu"@ + text::decimal(
            bench[i] as nat,
        ) implies gone.contains(note) by {
        let two = reserve::take_offline(sib, bench[i]);
        assert(two[1] == note);
        assert(two.contains(note));
    }
    if !has_pstate && said == "no intel_pstate: turbo and minimum frequency left alone"@ {
        assert(clock[0] == note);
    }
}

/// What five lists one after the other hold.
proof fn lemma_five_parts(
    a: Seq<StepView>,
    b: Seq<StepView>,
    c: Seq<StepView>,
    d: Seq<StepView>,
    e: Seq<StepView>,
    x: StepView,
)
    ensures
        (a + b + c + d + e).contains(x) <==> a.contains(x) || b.contains(x) || c.contains(x)
            || d.contains(x) || e.contains(x),
{
    invariance::lemma_contains_add(a, b, x);
    invariance::lemma_contains_add(a + b, c, x);
    invariance::lemma_contains_add(a + b + c, d, x);
    invariance::lemma_contains_add(a + b + c + d, e, x);
}

} // verus!
