//! Setting up and tearing down a low-noise benchmarking environment: what to
//! do, in what order.
//!
//! Everything here is a decision. The steps are carried out elsewhere, by
//! whoever may write to the kernel's files.

use crate::lists;
use crate::mask;
use crate::quiet;
use crate::quiet::Status;
use crate::text;
use vstd::prelude::*;

verus! {

/// Where the original settings are kept, so that they can be put back.
pub const STATE_PATH: &'static str = "/run/bench-quiet.state";

/// Where the frequency driver keeps its settings.
pub const PSTATE: &'static str = "/sys/devices/system/cpu/intel_pstate";

/// What the program was asked to do.
#[derive(Debug, Clone, PartialEq, Eq)]
pub enum Request {
    /// Quiesce the machine, reserving the CPUs of a list.
    Reserve(String),
    /// Undo that.
    Restore,
    /// Report whether a reservation is active.
    Status,
    /// Run a command on the reserved CPUs.
    Run(Vec<String>),
    /// Nothing it knows.
    Usage,
}

/// The values of a [`Request`].
#[verifier::ext_equal]
pub enum RequestView {
    Reserve(Seq<char>),
    Restore,
    Status,
    Run(Seq<Seq<char>>),
    Usage,
}

impl View for Request {
    type V = RequestView;

    open spec fn view(&self) -> RequestView {
        match *self {
            Request::Reserve(s) => RequestView::Reserve(s@),
            Request::Restore => RequestView::Restore,
            Request::Status => RequestView::Status,
            Request::Run(v) => RequestView::Run(text::strings(v@)),
            Request::Usage => RequestView::Usage,
        }
    }
}

/// What the arguments, without the program's name, ask for.
pub open spec fn requested(args: Seq<Seq<char>>) -> RequestView {
    if args.len() == 2 && args[0] == "reserve"@ {
        RequestView::Reserve(args[1])
    } else if args.len() == 1 && args[0] == "restore"@ {
        RequestView::Restore
    } else if args.len() == 1 && args[0] == "status"@ {
        RequestView::Status
    } else if args.len() >= 2 && args[0] == "run"@ {
        RequestView::Run(args.drop_first())
    } else {
        RequestView::Usage
    }
}

/// What the arguments, without the program's name, ask for.
pub fn request(args: &[&str]) -> (out: Request)
    ensures
        out@ == requested(text::texts(args@)),
{
    let ghost all = text::texts(args@);
    if args.len() == 0 {
        return Request::Usage;
    }
    assert(all[0] == args@[0]@);
    if args.len() == 2 && text::same_text(args[0], "reserve") {
        assert(all[1] == args@[1]@);
        return Request::Reserve(args[1].to_owned());
    }
    if args.len() == 1 && text::same_text(args[0], "restore") {
        return Request::Restore;
    }
    if args.len() == 1 && text::same_text(args[0], "status") {
        return Request::Status;
    }
    if args.len() >= 2 && text::same_text(args[0], "run") {
        proof {
            reveal_strlit("reserve");
            reveal_strlit("run");
            assert("reserve"@.len() != "run"@.len());
        }
        let ghost rest = all.drop_first();
        let mut argv: Vec<String> = Vec::new();
        let mut i: usize = 1;
        while i < args.len()
            invariant
                1 <= i <= args@.len(),
                all == text::texts(args@),
                rest == all.drop_first(),
                text::strings(argv@) == rest.take(i - 1),
            decreases args@.len() - i,
        {
            let ghost had = text::strings(argv@);
            argv.push(args[i].to_owned());
            assert(text::strings(argv@) =~= had.push(rest[i - 1]));
            assert(rest.take(i as int) =~= rest.take(i - 1).push(rest[i - 1]));
            i += 1;
        }
        assert(rest.take(i - 1) =~= rest);
        return Request::Run(argv);
    }
    Request::Usage
}

/// The code to exit with after a child did: its own, or 128 and the signal
/// that killed it.
pub fn exit_code_of(code: Option<i32>, signal: Option<i32>) -> (out: i32)
    requires
        signal matches Some(s) ==> s <= i32::MAX - 128,
    ensures
        out == match (code, signal) {
            (Some(c), _) => c,
            (None, Some(s)) => (128 + s) as i32,
            (None, None) => 128,
        },
{
    match code {
        Some(c) => c,
        None => match signal {
            Some(s) => 128 + s,
            None => 128,
        },
    }
}

/// The code to exit with after reporting `status`: a distinct one lets a
/// script tell a pinned thread from any other answer.
pub fn status_code(status: &Status) -> (out: i32)
    ensures
        out == if status@ is Pinned {
            0i32
        } else {
            1i32
        },
{
    match status {
        Status::Pinned { .. } => 0,
        _ => 1,
    }
}

/// Whether a directory entry is named by a number, as the ones of processes
/// and of interrupts are.
pub fn is_numbered(name: &str) -> (numbered: bool)
    ensures
        numbered == (text::number_up_to(name@, u32::MAX as nat) is Some),
{
    match text::parse_u64(name) {
        Some(n) => n <= u32::MAX as u64,
        None => false,
    }
}

/// The rows of a table of CPUs.
pub open spec fn rows(v: Seq<Vec<usize>>) -> Seq<Seq<usize>> {
    Seq::new(v.len(), |i: int| v[i]@)
}

/// The siblings of reserved CPUs that are not reserved themselves, row by
/// row.
pub open spec fn offlined(bench: Seq<usize>, siblings: Seq<Seq<usize>>) -> Seq<usize> {
    lists::gathered(
        siblings,
        |row: Seq<usize>| row.filter(|sib: usize| !bench.contains(sib)),
    )
}

/// The CPUs below `ncpu`.
pub open spec fn everyone(ncpu: usize) -> Seq<usize> {
    Seq::new(ncpu as nat, |c: int| c as usize)
}

/// The CPUs below `ncpu` that are left for the rest of the system.
pub open spec fn housekeeping(bench: Seq<usize>, gone: Seq<usize>, ncpu: usize) -> Seq<usize> {
    everyone(ncpu).filter(
        |c: usize| !bench.contains(c) && !gone.contains(c),
    )
}

/// The siblings of reserved CPUs that are not reserved themselves.
fn find_offlined(bench: &[usize], siblings: &Vec<Vec<usize>>) -> (out: Vec<usize>)
    ensures
        out@ == offlined(bench@, rows(siblings@)),
{
    let ghost all = rows(siblings@);
    let ghost f = |row: Seq<usize>| row.filter(|sib: usize| !bench@.contains(sib));
    let ghost keep = |sib: usize| !bench@.contains(sib);
    let mut out: Vec<usize> = Vec::new();
    let mut i: usize = 0;
    assert(all.take(0) =~= Seq::<Seq<usize>>::empty());
    assert(out@ =~= lists::gathered(all.take(0), f));
    while i < siblings.len()
        invariant
            i <= siblings.len(),
            all == rows(siblings@),
            f == (|row: Seq<usize>| row.filter(|sib: usize| !bench@.contains(sib))),
            keep == (|sib: usize| !bench@.contains(sib)),
            out@ == lists::gathered(all.take(i as int), f),
        decreases siblings.len() - i,
    {
        let ghost row = siblings@[i as int]@;
        let ghost had = out@;
        let mut k: usize = 0;
        proof {
            reveal(Seq::filter);
            assert(row.take(0) =~= Seq::<usize>::empty());
            assert(had + row.take(0).filter(keep) =~= had);
        }
        while k < siblings[i].len()
            invariant
                i < siblings.len(),
                k <= siblings@[i as int].len(),
                row == siblings@[i as int]@,
                keep == (|sib: usize| !bench@.contains(sib)),
                out@ == had + row.take(k as int).filter(keep),
            decreases siblings@[i as int].len() - k,
        {
            proof {
                lists::lemma_filter_step(row, keep, k as int);
            }
            if !mask::holds(bench, siblings[i][k]) {
                out.push(siblings[i][k]);
                assert(out@ =~= had + row.take(k + 1).filter(keep));
            }
            k += 1;
        }
        proof {
            assert(row.take(k as int) =~= row);
            assert(f(all[i as int]) == row.filter(keep)) by {
                assert(all[i as int] == row);
            }
            lists::lemma_gathered_step(all, f, i as int);
        }
        i += 1;
    }
    assert(all.take(i as int) =~= all);
    out
}

/// Why CPUs cannot be reserved.
#[derive(Debug, Clone, PartialEq, Eq)]
pub enum ReserveError {
    /// The machine has no such CPU.
    NoSuchCpu(usize),
    /// Nothing would be left for the rest of the system.
    NothingLeft,
}

/// Whether `c` is the first of `bench` that is not there.
pub open spec fn first_missing(bench: Seq<usize>, exists_at: Seq<bool>, c: usize) -> bool {
    exists|i: int|
        0 <= i < bench.len() && #[trigger] bench[i] == c && !exists_at[i] && forall|k: int|
            0 <= k < i ==> #[trigger] exists_at[k]
}

/// The CPUs left for the rest of the system when `bench` are reserved and
/// their siblings taken offline.
///
/// `exists_at` says of each CPU of `bench` whether the machine has it, and
/// `siblings` which CPUs share its core. The siblings are left out *before*
/// it is checked that a CPU remains: otherwise one reservation on a small
/// machine could take every remaining CPU offline.
pub fn split_cpus(
    bench: &[usize],
    exists_at: &Vec<bool>,
    siblings: &Vec<Vec<usize>>,
    ncpu: usize,
) -> (out: Result<Vec<usize>, ReserveError>)
    requires
        exists_at.len() == bench@.len(),
    ensures
        match out {
            Err(ReserveError::NoSuchCpu(c)) => first_missing(bench@, exists_at@, c),
            Err(ReserveError::NothingLeft) => {
                &&& forall|i: int| 0 <= i < bench@.len() ==> exists_at@[i]
                &&& housekeeping(bench@, offlined(bench@, rows(siblings@)), ncpu).len() == 0
            },
            Ok(other) => {
                &&& forall|i: int| 0 <= i < bench@.len() ==> exists_at@[i]
                &&& other@ == housekeeping(bench@, offlined(bench@, rows(siblings@)), ncpu)
                &&& other@.len() > 0
            },
        },
{
    let mut i: usize = 0;
    while i < bench.len()
        invariant
            i <= bench@.len(),
            exists_at.len() == bench@.len(),
            forall|k: int| 0 <= k < i ==> #[trigger] exists_at@[k],
        decreases bench@.len() - i,
    {
        if !exists_at[i] {
            assert(bench@[i as int] == bench@[i as int]);
            return Err(ReserveError::NoSuchCpu(bench[i]));
        }
        i += 1;
    }
    let gone = find_offlined(bench, siblings);
    let ghost all = everyone(ncpu);
    let ghost keep = |c: usize| !bench@.contains(c) && !gone@.contains(c);
    let mut other: Vec<usize> = Vec::new();
    let mut c: usize = 0;
    proof {
        reveal(Seq::filter);
        assert(all.take(0) =~= Seq::<usize>::empty());
        assert(other@ =~= all.take(0).filter(keep));
    }
    while c < ncpu
        invariant
            c <= ncpu,
            all == everyone(ncpu),
            keep == (|c: usize| !bench@.contains(c) && !gone@.contains(c)),
            other@ == all.take(c as int).filter(keep),
        decreases ncpu - c,
    {
        proof {
            lists::lemma_filter_step(all, keep, c as int);
        }
        if !mask::holds(bench, c) && !mask::holds(gone.as_slice(), c) {
            other.push(c);
        }
        c += 1;
    }
    assert(all.take(c as int) =~= all);
    if other.len() == 0 {
        return Err(ReserveError::NothingLeft);
    }
    Ok(other)
}

impl ReserveError {
    /// Why, for a human.
    pub open spec fn sentence(self) -> Seq<char> {
        match self {
            ReserveError::NoSuchCpu(c) => "no such CPU: "@ + text::decimal(c as nat),
            ReserveError::NothingLeft => {
                "reserving these CPU(s) would offline every remaining CPU via their SMT siblings, leaving nothing for the rest of the system; reserve fewer CPUs or include their siblings in the reservation"@
            },
        }
    }

    /// Why, for a human.
    pub fn message(&self) -> (out: String)
        ensures
            out@ == self.sentence(),
    {
        match self {
            ReserveError::NoSuchCpu(c) => {
                let mut out = "no such CPU: ".to_owned();
                text::append_number(&mut out, *c as u64);
                out
            },
            ReserveError::NothingLeft => {
                "reserving these CPU(s) would offline every remaining CPU via their SMT siblings, leaving nothing for the rest of the system; reserve fewer CPUs or include their siblings in the reservation".to_owned()
            },
        }
    }
}

/// One thing to do to the machine.
#[derive(Debug, Clone, PartialEq, Eq)]
pub enum Step {
    /// Write a setting, and note where that fails.
    Put { path: String, contents: String },
    /// Write a setting, and do not mind where that fails.
    PutQuietly { path: String, contents: String },
    /// Tell the user something.
    Note(String),
    /// Clear CPU sets left behind, which would veto the pinning.
    ClearCpusets,
    /// Confine every task to these CPUs, and note how many moved.
    MoveTasks(Vec<usize>),
    /// Stop or start the service that balances interrupts.
    Balance(bool),
    /// Steer every interrupt by this mask, and note how many moved.
    SteerInterrupts(String),
    /// Advertise the reservation.
    Advertise(String),
    /// Forget the reservation and the original settings.
    Forget,
}

/// The values of a [`Step`].
#[verifier::ext_equal]
pub enum StepView {
    Put { path: Seq<char>, contents: Seq<char> },
    PutQuietly { path: Seq<char>, contents: Seq<char> },
    Note(Seq<char>),
    ClearCpusets,
    MoveTasks(Seq<usize>),
    Balance(bool),
    SteerInterrupts(Seq<char>),
    Advertise(Seq<char>),
    Forget,
}

impl View for Step {
    type V = StepView;

    open spec fn view(&self) -> StepView {
        match *self {
            Step::Put { path, contents } => StepView::Put { path: path@, contents: contents@ },
            Step::PutQuietly { path, contents } => StepView::PutQuietly {
                path: path@,
                contents: contents@,
            },
            Step::Note(s) => StepView::Note(s@),
            Step::ClearCpusets => StepView::ClearCpusets,
            Step::MoveTasks(v) => StepView::MoveTasks(v@),
            Step::Balance(on) => StepView::Balance(on),
            Step::SteerInterrupts(s) => StepView::SteerInterrupts(s@),
            Step::Advertise(s) => StepView::Advertise(s@),
            Step::Forget => StepView::Forget,
        }
    }
}

/// The values of a list of steps.
pub open spec fn step_views(v: Seq<Step>) -> Seq<StepView> {
    Seq::new(v.len(), |i: int| v[i]@)
}

/// The step that writes `contents` to `path` and does not mind failing.
pub open spec fn quietly(path: Seq<char>, contents: Seq<char>) -> StepView {
    StepView::PutQuietly { path, contents }
}

/// A setting of CPU `c`.
pub open spec fn cpu_path(c: nat, tail: Seq<char>) -> Seq<char> {
    "/sys/devices/system/cpu/cpu"@ + text::decimal(c) + tail
}

/// A setting of the frequency driver.
pub open spec fn pstate_path(tail: Seq<char>) -> Seq<char> {
    PSTATE@ + tail
}

/// Give every CPU below `ncpu` a setting.
pub open spec fn everywhere(ncpu: usize, tail: Seq<char>, contents: Seq<char>) -> Seq<StepView> {
    Seq::new(ncpu as nat, |c: int| quietly(cpu_path(c as nat, tail), contents))
}

/// Take one sibling offline and say so.
pub open spec fn take_offline(sib: usize, c: usize) -> Seq<StepView> {
    seq![
        quietly(cpu_path(sib as nat, "/online"@), "0"@),
        StepView::Note(
            "offlined SMT sibling cpu"@ + text::decimal(sib as nat) + " of cpu"@ + text::decimal(
                c as nat,
            ),
        ),
    ]
}

/// Take the siblings in one row offline, those that are not reserved.
pub open spec fn row_offline(bench: Seq<usize>, c: usize, row: Seq<usize>) -> Seq<StepView> {
    lists::gathered(
        row,
        |sib: usize|
            if bench.contains(sib) {
                Seq::empty()
            } else {
                take_offline(sib, c)
            },
    )
}

/// Take the siblings of the first `k` reserved CPUs offline.
pub open spec fn siblings_offline(bench: Seq<usize>, siblings: Seq<Seq<usize>>, k: int) -> Seq<
    StepView,
>
    decreases k,
{
    if k <= 0 {
        Seq::empty()
    } else {
        siblings_offline(bench, siblings, k - 1) + row_offline(
            bench,
            bench[k - 1],
            siblings[k - 1],
        )
    }
}

/// Pin the clock, where there is a driver that lets itself be told.
pub open spec fn pin_clock(has_pstate: bool) -> Seq<StepView> {
    if has_pstate {
        seq![
            StepView::Put { path: pstate_path("/no_turbo"@), contents: "1"@ },
            StepView::Put { path: pstate_path("/min_perf_pct"@), contents: "100"@ },
        ]
    } else {
        seq![StepView::Note("no intel_pstate: turbo and minimum frequency left alone"@)]
    }
}

/// Move everything to `other` and keep it there.
pub open spec fn clear_away(other: Seq<usize>, mask: Seq<char>) -> Seq<StepView> {
    seq![
        StepView::ClearCpusets,
        StepView::MoveTasks(other),
        StepView::Balance(false),
        quietly("/proc/irq/default_smp_affinity"@, mask),
        StepView::SteerInterrupts(mask),
        quietly("/proc/sys/kernel/randomize_va_space"@, "0"@),
        quietly("/proc/sys/kernel/perf_event_paranoid"@, "-1"@),
    ]
}

/// Everything that reserving `bench` takes, in order: pin the clock, set
/// every governor, take the siblings offline, move tasks and interrupts
/// aside, settle the address layout, and only then advertise the reservation.
pub open spec fn reserve_steps(
    bench: Seq<usize>,
    other: Seq<usize>,
    siblings: Seq<Seq<usize>>,
    ncpu: usize,
    has_pstate: bool,
    mask: Seq<char>,
    canonical: Seq<char>,
) -> Seq<StepView> {
    pin_clock(has_pstate) + everywhere(ncpu, "/cpufreq/scaling_governor"@, "performance"@)
        + siblings_offline(bench, siblings, bench.len() as int) + clear_away(other, mask) + seq![
        StepView::Advertise(canonical),
    ]
}

/// A setting of CPU `c`.
fn path_of_cpu(c: usize, tail: &str) -> (out: String)
    ensures
        out@ == cpu_path(c as nat, tail@),
{
    let mut out = "/sys/devices/system/cpu/cpu".to_owned();
    text::append_number(&mut out, c as u64);
    out.append(tail);
    out
}

/// A setting of the frequency driver.
fn path_of_pstate(tail: &str) -> (out: String)
    ensures
        out@ == pstate_path(tail@),
{
    let mut out = PSTATE.to_owned();
    out.append(tail);
    out
}

/// Add one step to the end of `steps`.
fn add_step(steps: &mut Vec<Step>, step: Step)
    ensures
        step_views(final(steps)@) == step_views(old(steps)@).push(step@),
{
    steps.push(step);
    assert(step_views(steps@) =~= step_views(old(steps)@).push(step@));
}

/// Add the step that writes `contents` to `path` and does not mind failing.
fn add_quietly(steps: &mut Vec<Step>, path: String, contents: &str)
    ensures
        step_views(final(steps)@) == step_views(old(steps)@).push(quietly(path@, contents@)),
{
    add_step(steps, Step::PutQuietly { path, contents: contents.to_owned() });
}

/// Give every CPU below `ncpu` a setting.
fn add_everywhere(steps: &mut Vec<Step>, ncpu: usize, tail: &str, contents: &str)
    ensures
        step_views(final(steps)@) == step_views(old(steps)@) + everywhere(
            ncpu,
            tail@,
            contents@,
        ),
{
    let ghost all = everywhere(ncpu, tail@, contents@);
    let mut c: usize = 0;
    assert(step_views(steps@) + all.take(0) =~= step_views(steps@));
    while c < ncpu
        invariant
            c <= ncpu,
            all == everywhere(ncpu, tail@, contents@),
            step_views(steps@) == step_views(old(steps)@) + all.take(c as int),
        decreases ncpu - c,
    {
        add_quietly(steps, path_of_cpu(c, tail), contents);
        assert(step_views(steps@) =~= step_views(old(steps)@) + all.take(c + 1));
        c += 1;
    }
    assert(all.take(c as int) =~= all);
}

/// Take the siblings in one row offline, those that are not reserved.
fn add_row_offline(steps: &mut Vec<Step>, bench: &[usize], c: usize, row: &Vec<usize>)
    ensures
        step_views(final(steps)@) == step_views(old(steps)@) + row_offline(bench@, c, row@),
{
    let ghost f = |sib: usize|
        if bench@.contains(sib) {
            Seq::empty()
        } else {
            take_offline(sib, c)
        };
    let mut k: usize = 0;
    assert(row@.take(0) =~= Seq::<usize>::empty());
    assert(step_views(steps@) + lists::gathered(row@.take(0), f) =~= step_views(steps@));
    while k < row.len()
        invariant
            k <= row.len(),
            f == (|sib: usize|
                if bench@.contains(sib) {
                    Seq::empty()
                } else {
                    take_offline(sib, c)
                }),
            step_views(steps@) == step_views(old(steps)@) + lists::gathered(row@.take(k as int), f),
        decreases row.len() - k,
    {
        let sib = row[k];
        let ghost had = step_views(steps@);
        if !mask::holds(bench, sib) {
            add_quietly(steps, path_of_cpu(sib, "/online"), "0");
            let mut note = "offlined SMT sibling cpu".to_owned();
            text::append_number(&mut note, sib as u64);
            note.append(" of cpu");
            text::append_number(&mut note, c as u64);
            add_step(steps, Step::Note(note));
        }
        proof {
            lists::lemma_gathered_step(row@, f, k as int);
            assert(step_views(steps@) =~= had + f(sib));
            assert(step_views(old(steps)@) + lists::gathered(row@.take(k as int), f) + f(sib)
                =~= step_views(old(steps)@) + lists::gathered(row@.take(k + 1), f));
        }
        k += 1;
    }
    assert(row@.take(k as int) =~= row@);
}

/// Everything that reserving `bench` takes, in order.
///
/// `other` are the CPUs left for the rest of the system, and `siblings` the
/// CPUs that share a core with each of `bench`. Tasks are moved by plain
/// per-task affinity rather than a CPU set, which would lock the benchmark
/// itself out of the CPUs reserved for it.
pub fn plan_reservation(
    bench: &[usize],
    other: Vec<usize>,
    siblings: &Vec<Vec<usize>>,
    ncpu: usize,
    has_pstate: bool,
) -> (steps: Vec<Step>)
    requires
        siblings.len() == bench@.len(),
    ensures
        exists|highest: nat, s: Seq<usize>|
            mask::is_highest(other@, highest) && quiet::increasing(s) && (forall|x: usize|
                #[trigger] s.contains(x) <==> bench@.contains(x)) && step_views(steps@)
                == #[trigger] reserve_steps(
                bench@,
                other@,
                rows(siblings@),
                ncpu,
                has_pstate,
                mask::mask_text(other@, highest / 32 + 1),
                quiet::cpu_list_text(s),
            ),
{
    let mut steps: Vec<Step> = Vec::new();
    assert(step_views(steps@) =~= Seq::<StepView>::empty());
    if has_pstate {
        add_step(
            &mut steps,
            Step::Put { path: path_of_pstate("/no_turbo"), contents: "1".to_owned() },
        );
        add_step(
            &mut steps,
            Step::Put { path: path_of_pstate("/min_perf_pct"), contents: "100".to_owned() },
        );
    } else {
        add_step(
            &mut steps,
            Step::Note(
                "no intel_pstate: turbo and minimum frequency left alone".to_owned(),
            ),
        );
    }
    assert(step_views(steps@) =~= pin_clock(has_pstate));
    add_everywhere(&mut steps, ncpu, "/cpufreq/scaling_governor", "performance");
    let ghost first = step_views(steps@);
    let ghost all = rows(siblings@);
    let mut i: usize = 0;
    assert(first + siblings_offline(bench@, all, 0) =~= first);
    while i < bench.len()
        invariant
            i <= bench@.len(),
            siblings.len() == bench@.len(),
            all == rows(siblings@),
            step_views(steps@) == first + siblings_offline(bench@, all, i as int),
        decreases bench@.len() - i,
    {
        add_row_offline(&mut steps, bench, bench[i], &siblings[i]);
        assert(step_views(steps@) =~= first + siblings_offline(bench@, all, i + 1));
        i += 1;
    }
    let mask = mask::affinity_mask(other.as_slice());
    let canonical = quiet::format_cpu_list(bench);
    let ghost second = step_views(steps@);
    let ghost (o, m, c) = (other@, mask@, canonical@);
    add_step(&mut steps, Step::ClearCpusets);
    add_step(&mut steps, Step::MoveTasks(other));
    add_step(&mut steps, Step::Balance(false));
    add_quietly(&mut steps, "/proc/irq/default_smp_affinity".to_owned(), mask.as_str());
    add_step(&mut steps, Step::SteerInterrupts(mask));
    add_quietly(&mut steps, "/proc/sys/kernel/randomize_va_space".to_owned(), "0");
    add_quietly(&mut steps, "/proc/sys/kernel/perf_event_paranoid".to_owned(), "-1");
    add_step(&mut steps, Step::Advertise(canonical));
    proof {
        assert(step_views(steps@) =~= second + clear_away(o, m) + seq![StepView::Advertise(c)]);
        let highest = choose|highest: nat|
            mask::is_highest(o, highest) && m == mask::mask_text(o, highest / 32 + 1);
        let s = choose|s: Seq<usize>|
            quiet::increasing(s) && (forall|x: usize| #[trigger]
                s.contains(x) <==> bench@.contains(x)) && c == quiet::cpu_list_text(s);
        assert(step_views(steps@) == reserve_steps(
            bench@,
            o,
            all,
            ncpu,
            has_pstate,
            mask::mask_text(o, highest / 32 + 1),
            quiet::cpu_list_text(s),
        ));
    }
    steps
}

/// What is left for the rest of the system is on the machine, and is neither
/// reserved nor taken offline.
pub proof fn law_housekeeping_is_apart(
    bench: Seq<usize>,
    siblings: Seq<Seq<usize>>,
    ncpu: usize,
    c: usize,
)
    ensures
        housekeeping(bench, offlined(bench, siblings), ncpu).contains(c) <==> c < ncpu
            && !bench.contains(c) && !offlined(bench, siblings).contains(c),
        offlined(bench, siblings).contains(c) <==> !bench.contains(c) && exists|i: int|
            0 <= i < siblings.len() && #[trigger] siblings[i].contains(c),
{
    let gone = offlined(bench, siblings);
    let all = everyone(ncpu);
    let keep = |c: usize| !bench.contains(c) && !gone.contains(c);
    crate::reorder::lemma_filter_contains(all, keep);
    assert(all.contains(c) <==> c < ncpu) by {
        if c < ncpu {
            assert(all[c as int] == c);
        }
    }
    let f = |row: Seq<usize>| row.filter(|sib: usize| !bench.contains(sib));
    crate::reorder::lemma_gathered_contains(siblings, f);
    if gone.contains(c) {
        let i = choose|i: int| 0 <= i < siblings.len() && #[trigger] f(siblings[i]).contains(c);
        crate::reorder::lemma_filter_contains(siblings[i], |sib: usize| !bench.contains(sib));
        assert(siblings[i].contains(c));
    }
    if !bench.contains(c) && exists|i: int|
        0 <= i < siblings.len() && #[trigger] siblings[i].contains(c) {
        let i = choose|i: int| 0 <= i < siblings.len() && #[trigger] siblings[i].contains(c);
        crate::reorder::lemma_filter_contains(siblings[i], |sib: usize| !bench.contains(sib));
        assert(f(siblings[i]).contains(c));
    }
}

/// The settings a reservation changes, as far as they could be read.
#[derive(Debug, Clone, PartialEq, Eq)]
pub struct Settings {
    pub no_turbo: Option<String>,
    pub min_perf_pct: Option<String>,
    pub governor: Option<String>,
    pub randomize_va_space: Option<String>,
    pub perf_event_paranoid: Option<String>,
}

/// The values of [`Settings`].
#[verifier::ext_equal]
pub struct SettingsView {
    pub no_turbo: Option<Seq<char>>,
    pub min_perf_pct: Option<Seq<char>>,
    pub governor: Option<Seq<char>>,
    pub randomize_va_space: Option<Seq<char>>,
    pub perf_event_paranoid: Option<Seq<char>>,
}

impl View for Settings {
    type V = SettingsView;

    open spec fn view(&self) -> SettingsView {
        SettingsView {
            no_turbo: text::maybe_owned(self.no_turbo),
            min_perf_pct: text::maybe_owned(self.min_perf_pct),
            governor: text::maybe_owned(self.governor),
            randomize_va_space: text::maybe_owned(self.randomize_va_space),
            perf_event_paranoid: text::maybe_owned(self.perf_event_paranoid),
        }
    }
}

/// One setting, by its key, where it could be read.
pub open spec fn entry(key: Seq<char>, value: Option<Seq<char>>) -> Seq<(Seq<char>, Seq<char>)> {
    match value {
        Some(v) => seq![(key, text::trimmed(v))],
        None => Seq::empty(),
    }
}

/// The settings that could be read, by their keys.
pub open spec fn setting_entries(s: SettingsView) -> Seq<(Seq<char>, Seq<char>)> {
    entry("no_turbo"@, s.no_turbo) + entry("min_perf_pct"@, s.min_perf_pct) + entry(
        "governor"@,
        s.governor,
    ) + entry("randomize_va_space"@, s.randomize_va_space) + entry(
        "perf_event_paranoid"@,
        s.perf_event_paranoid,
    )
}

/// One line of saved state.
pub open spec fn state_line(e: (Seq<char>, Seq<char>)) -> Seq<char> {
    e.0 + seq!['='] + e.1
}

/// Saved state: a line for each setting, each ended.
pub open spec fn state_text(entries: Seq<(Seq<char>, Seq<char>)>) -> Seq<char> {
    lists::gathered(entries, |e: (Seq<char>, Seq<char>)| state_line(e) + seq!['\n'])
}

/// Add the line of one setting, where it could be read.
fn add_state_line(out: &mut String, key: &str, value: &Option<String>)
    ensures
        final(out)@ == old(out)@ + state_text(entry(key@, text::maybe_owned(*value))),
{
    let ghost f = |e: (Seq<char>, Seq<char>)| state_line(e) + seq!['\n'];
    match value {
        Some(v) => {
            let v = text::trim(v.as_str());
            out.append(key);
            out.append("=");
            out.append(v);
            out.append("\n");
            proof {
                reveal_strlit("=");
                reveal_strlit("\n");
                assert("="@ =~= seq!['=']);
                assert("\n"@ =~= seq!['\n']);
                let es = seq![(key@, v@)];
                assert(es.drop_last() =~= Seq::<(Seq<char>, Seq<char>)>::empty());
                assert(lists::gathered(es.drop_last(), f) =~= Seq::<char>::empty());
                assert(es.last() == (key@, v@));
                assert(state_text(es) =~= f((key@, v@)));
            }
            assert(out@ =~= old(out)@ + (key@ + seq!['='] + v@ + seq!['\n']));
        },
        None => {
            assert(state_text(Seq::<(Seq<char>, Seq<char>)>::empty()) =~= Seq::<char>::empty());
            assert(out@ =~= old(out)@ + Seq::<char>::empty());
        },
    }
}

/// The state to save, unless some is saved already.
///
/// Write-once: on a second reservation the live values are already changed,
/// so saving again would lose the true originals forever.
pub fn save_original_state(already_saved: bool, settings: &Settings) -> (out: Option<String>)
    ensures
        text::maybe_owned(out) == if already_saved {
            None
        } else {
            Some(state_text(setting_entries(settings@)))
        },
{
    if already_saved {
        return None;
    }
    let ghost s = settings@;
    let mut out = String::new();
    add_state_line(&mut out, "no_turbo", &settings.no_turbo);
    add_state_line(&mut out, "min_perf_pct", &settings.min_perf_pct);
    add_state_line(&mut out, "governor", &settings.governor);
    add_state_line(&mut out, "randomize_va_space", &settings.randomize_va_space);
    add_state_line(&mut out, "perf_event_paranoid", &settings.perf_event_paranoid);
    proof {
        let f = |e: (Seq<char>, Seq<char>)| state_line(e) + seq!['\n'];
        let (a, b, c, d, e) = (
            entry("no_turbo"@, s.no_turbo),
            entry("min_perf_pct"@, s.min_perf_pct),
            entry("governor"@, s.governor),
            entry("randomize_va_space"@, s.randomize_va_space),
            entry("perf_event_paranoid"@, s.perf_event_paranoid),
        );
        crate::reorder::lemma_gathered_add(a, b, f);
        crate::reorder::lemma_gathered_add(a + b, c, f);
        crate::reorder::lemma_gathered_add(a + b + c, d, f);
        crate::reorder::lemma_gathered_add(a + b + c + d, e, f);
        assert(out@ =~= state_text(a + b + c + d + e));
    }
    Some(out)
}

/// The value the last of `lines` with this key gives it.
pub open spec fn saved_value(lines: Seq<Seq<char>>, key: Seq<char>) -> Option<Seq<char>>
    decreases lines.len(),
{
    if lines.len() == 0 {
        None
    } else {
        let line = lines.last();
        let eq = text::first_index(line, '=');
        if eq < line.len() && text::trimmed(line.take(eq)) == key {
            Some(text::trimmed(line.skip(eq + 1)))
        } else {
            saved_value(lines.drop_last(), key)
        }
    }
}

/// What saved state gives each setting.
pub open spec fn loaded(saved: Seq<char>) -> SettingsView {
    let lines = text::pieces(saved, '\n');
    SettingsView {
        no_turbo: saved_value(lines, "no_turbo"@),
        min_perf_pct: saved_value(lines, "min_perf_pct"@),
        governor: saved_value(lines, "governor"@),
        randomize_va_space: saved_value(lines, "randomize_va_space"@),
        perf_event_paranoid: saved_value(lines, "perf_event_paranoid"@),
    }
}

/// The value the last of `lines` with this key gives it.
fn find_saved(lines: &Vec<&str>, key: &str) -> (out: Option<String>)
    ensures
        text::maybe_owned(out) == saved_value(text::texts(lines@), key@),
{
    let ghost all = text::texts(lines@);
    let mut left: usize = lines.len();
    assert(all.take(left as int) =~= all);
    while left > 0
        invariant
            left <= lines.len(),
            all == text::texts(lines@),
            saved_value(all, key@) == saved_value(all.take(left as int), key@),
        decreases left,
    {
        let line = lines[left - 1];
        let c = text::chars_of(line);
        let eq = text::find_from(&c, '=', 0);
        proof {
            assert(c@.skip(0) =~= c@);
            assert(all.take(left as int).last() == line@);
            assert(all.take(left as int).drop_last() =~= all.take(left - 1));
        }
        if eq < c.len() {
            assert(line@.subrange(0, eq as int) =~= line@.take(eq as int));
            assert(line@.subrange(eq + 1, line@.len() as int) =~= line@.skip(eq + 1));
            if text::same_text(text::trim(line.substring_char(0, eq)), key) {
                return Some(text::trim(line.substring_char(eq + 1, c.len())).to_owned());
            }
        }
        left -= 1;
    }
    None
}

/// What saved state gives each setting; nothing where none was saved.
pub fn load_original_state(saved: Option<&str>) -> (out: Settings)
    ensures
        match saved {
            Some(s) => out@ == loaded(s@),
            None => out@ == (SettingsView {
                no_turbo: None,
                min_perf_pct: None,
                governor: None,
                randomize_va_space: None,
                perf_event_paranoid: None,
            }),
        },
{
    match saved {
        None => Settings {
            no_turbo: None,
            min_perf_pct: None,
            governor: None,
            randomize_va_space: None,
            perf_event_paranoid: None,
        },
        Some(s) => {
            let lines = text::split(s, '\n');
            Settings {
                no_turbo: find_saved(&lines, "no_turbo"),
                min_perf_pct: find_saved(&lines, "min_perf_pct"),
                governor: find_saved(&lines, "governor"),
                randomize_va_space: find_saved(&lines, "randomize_va_space"),
                perf_event_paranoid: find_saved(&lines, "perf_event_paranoid"),
            }
        },
    }
}

/// A text, or another where there is none.
pub open spec fn or_else(value: Option<Seq<char>>, otherwise: Seq<char>) -> Seq<char> {
    match value {
        Some(v) => v,
        None => otherwise,
    }
}

/// Put the clock back. Without a saved value turbo comes back on, the
/// overwhelmingly common default.
pub open spec fn free_clock(has_pstate: bool, saved: SettingsView) -> Seq<StepView> {
    if !has_pstate {
        Seq::empty()
    } else {
        seq![quietly(pstate_path("/no_turbo"@), or_else(saved.no_turbo, "0"@))] + match saved.min_perf_pct {
            Some(v) => seq![quietly(pstate_path("/min_perf_pct"@), v)],
            None => Seq::empty(),
        }
    }
}

/// Let everything run everywhere again.
pub open spec fn spread_out(all: Seq<usize>, mask: Seq<char>, saved: SettingsView) -> Seq<
    StepView,
> {
    seq![
        StepView::ClearCpusets,
        StepView::MoveTasks(all),
        quietly("/proc/sys/kernel/randomize_va_space"@, or_else(saved.randomize_va_space, "2"@)),
        quietly("/proc/sys/kernel/perf_event_paranoid"@, or_else(saved.perf_event_paranoid, "2"@)),
        quietly("/proc/irq/default_smp_affinity"@, mask),
        StepView::SteerInterrupts(mask),
        StepView::Balance(true),
        StepView::Forget,
    ]
}

/// Everything that undoing a reservation takes, in order: bring every CPU
/// back first, so that what follows reaches it.
pub open spec fn restore_steps(
    ncpu: usize,
    saved: SettingsView,
    has_pstate: bool,
    mask: Seq<char>,
) -> Seq<StepView> {
    everywhere(ncpu, "/online"@, "1"@) + free_clock(has_pstate, saved) + everywhere(
        ncpu,
        "/cpufreq/scaling_governor"@,
        or_else(saved.governor, "powersave"@),
    ) + spread_out(everyone(ncpu), mask, saved)
}

/// A text, or another where there is none.
fn value_or<'a>(value: &'a Option<String>, otherwise: &'a str) -> (out: &'a str)
    ensures
        out@ == or_else(text::maybe_owned(*value), otherwise@),
{
    match value {
        Some(v) => v.as_str(),
        None => otherwise,
    }
}

/// Everything that undoing a reservation takes, in order.
pub fn plan_restoration(ncpu: usize, saved: &Settings, has_pstate: bool) -> (steps: Vec<Step>)
    ensures
        exists|highest: nat|
            #[trigger] mask::is_highest(everyone(ncpu), highest) && step_views(
                steps@,
            ) == restore_steps(
                ncpu,
                saved@,
                has_pstate,
                mask::mask_text(everyone(ncpu), highest / 32 + 1),
            ),
{
    let ghost whole = everyone(ncpu);
    let mut steps: Vec<Step> = Vec::new();
    assert(step_views(steps@) =~= Seq::<StepView>::empty());
    add_everywhere(&mut steps, ncpu, "/online", "1");
    let ghost first = step_views(steps@);
    assert(first =~= everywhere(ncpu, "/online"@, "1"@));
    if has_pstate {
        add_quietly(
            &mut steps,
            path_of_pstate("/no_turbo"),
            value_or(&saved.no_turbo, "0"),
        );
        match &saved.min_perf_pct {
            Some(v) => {
                add_quietly(&mut steps, path_of_pstate("/min_perf_pct"), v.as_str());
            },
            None => {},
        }
    }
    assert(step_views(steps@) =~= first + free_clock(has_pstate, saved@));
    add_everywhere(
        &mut steps,
        ncpu,
        "/cpufreq/scaling_governor",
        value_or(&saved.governor, "powersave"),
    );
    let ghost second = step_views(steps@);
    let mut all: Vec<usize> = Vec::new();
    let mut c: usize = 0;
    while c < ncpu
        invariant
            c <= ncpu,
            whole == everyone(ncpu),
            all@ == whole.take(c as int),
        decreases ncpu - c,
    {
        all.push(c);
        assert(whole.take(c + 1) =~= whole.take(c as int).push(c));
        c += 1;
    }
    assert(whole.take(c as int) =~= whole);
    let mask = mask::affinity_mask(all.as_slice());
    let ghost m = mask@;
    add_step(&mut steps, Step::ClearCpusets);
    add_step(&mut steps, Step::MoveTasks(all));
    add_quietly(
        &mut steps,
        "/proc/sys/kernel/randomize_va_space".to_owned(),
        value_or(&saved.randomize_va_space, "2"),
    );
    add_quietly(
        &mut steps,
        "/proc/sys/kernel/perf_event_paranoid".to_owned(),
        value_or(&saved.perf_event_paranoid, "2"),
    );
    add_quietly(&mut steps, "/proc/irq/default_smp_affinity".to_owned(), mask.as_str());
    add_step(&mut steps, Step::SteerInterrupts(mask));
    add_step(&mut steps, Step::Balance(true));
    add_step(&mut steps, Step::Forget);
    proof {
        assert(step_views(steps@) =~= second + spread_out(whole, m, saved@));
        let highest = choose|highest: nat|
            mask::is_highest(whole, highest) && m == mask::mask_text(whole, highest / 32 + 1);
        assert(step_views(steps@) == restore_steps(
            ncpu,
            saved@,
            has_pstate,
            mask::mask_text(whole, highest / 32 + 1),
        ));
    }
    steps
}

/// What is noted once tasks have been moved.
pub fn moved_note(moved: usize, other: &[usize]) -> (out: String)
    ensures
        exists|s: Seq<usize>|
            quiet::increasing(s) && (forall|x: usize| #[trigger]
                s.contains(x) <==> other@.contains(x)) && out@ == "moved "@ + text::decimal(
                moved as nat,
            ) + " tasks onto CPU(s) "@ + quiet::cpu_list_text(s),
{
    let mut out = "moved ".to_owned();
    text::append_number(&mut out, moved as u64);
    out.append(" tasks onto CPU(s) ");
    out.append(quiet::format_cpu_list(other).as_str());
    out
}

/// What is noted once interrupts have been steered.
pub fn steered_note(moved: usize, stuck: usize) -> (out: String)
    ensures
        out@ == "IRQs steered off the reserved CPUs: "@ + text::decimal(moved as nat)
            + " moved, "@ + text::decimal(stuck as nat) + " immovable"@,
{
    let mut out = "IRQs steered off the reserved CPUs: ".to_owned();
    text::append_number(&mut out, moved as u64);
    out.append(" moved, ");
    text::append_number(&mut out, stuck as u64);
    out.append(" immovable");
    out
}

/// The words that tell how to use a reservation, up to the housekeeping CPUs.
pub open spec fn how_to_run() -> Seq<char> {
    " reserved\n\nRun benchmarks through the pinning wrapper (as your normal user):\n\n  bench-quiet run cargo test --release\n\nAnything not run that way lands on the housekeeping CPUs ("@
}

/// What is said once a reservation stands, given both lists of CPUs.
pub open spec fn ready_text(bench: Seq<char>, other: Seq<char>) -> Seq<char> {
    "\nready: CPU(s) "@ + bench + how_to_run() + other
        + ") \nand gains nothing.\n\nUndo with:  sudo bench-quiet restore"@
}

/// Whether `s` lists the CPUs of `cpus` as they are written: each once, from
/// the lowest up.
pub open spec fn lists(s: Seq<usize>, cpus: Seq<usize>) -> bool {
    quiet::increasing(s) && forall|x: usize| #[trigger] s.contains(x) <==> cpus.contains(x)
}

/// What is said once a reservation stands.
pub fn ready_note(bench: &[usize], other: &[usize]) -> (out: String)
    ensures
        exists|b: Seq<usize>, o: Seq<usize>| #[trigger]
            lists(b, bench@) && #[trigger] lists(o, other@) && out@ == ready_text(
                quiet::cpu_list_text(b),
                quiet::cpu_list_text(o),
            ),
{
    let reserved = quiet::format_cpu_list(bench);
    let rest = quiet::format_cpu_list(other);
    let mut out = "\nready: CPU(s) ".to_owned();
    out.append(reserved.as_str());
    out.append(
        " reserved\n\nRun benchmarks through the pinning wrapper (as your normal user):\n\n  bench-quiet run cargo test --release\n\nAnything not run that way lands on the housekeeping CPUs (",
    );
    out.append(rest.as_str());
    out.append(") \nand gains nothing.\n\nUndo with:  sudo bench-quiet restore");
    proof {
        let b = choose|s: Seq<usize>|
            quiet::increasing(s) && (forall|x: usize| #[trigger]
                s.contains(x) <==> bench@.contains(x)) && reserved@ == quiet::cpu_list_text(s);
        let o = choose|s: Seq<usize>|
            quiet::increasing(s) && (forall|x: usize| #[trigger]
                s.contains(x) <==> other@.contains(x)) && rest@ == quiet::cpu_list_text(s);
        assert(lists(b, bench@));
        assert(lists(o, other@));
    }
    out
}

/// What is said once a reservation has been undone.
pub fn restored_note(ncpu: usize, saved: &Settings, moved: usize) -> (out: String)
    ensures
        out@ == "restored: all "@ + text::decimal(ncpu as nat) + " CPUs online, "@ + or_else(
            saved@.governor,
            "powersave"@,
        ) + " governor, "@ + text::decimal(moved as nat)
            + " tasks unpinned, irqbalance running"@,
{
    let mut out = "restored: all ".to_owned();
    text::append_number(&mut out, ncpu as u64);
    out.append(" CPUs online, ");
    out.append(value_or(&saved.governor, "powersave"));
    out.append(" governor, ");
    text::append_number(&mut out, moved as u64);
    out.append(" tasks unpinned, irqbalance running");
    out
}

/// Whether a value can be kept on one line.
pub open spec fn one_line(value: Option<Seq<char>>) -> bool {
    value matches Some(v) ==> !text::trimmed(v).contains('\n')
}

/// The lines of saved state.
pub open spec fn state_lines(entries: Seq<(Seq<char>, Seq<char>)>) -> Seq<Seq<char>> {
    Seq::new(entries.len(), |i: int| state_line(entries[i]))
}

/// Splitting saved state gives its lines, and nothing after the last.
proof fn lemma_state_splits(entries: Seq<(Seq<char>, Seq<char>)>)
    requires
        forall|i: int|
            0 <= i < entries.len() ==> !state_line(#[trigger] entries[i]).contains('\n'),
    ensures
        text::pieces(state_text(entries), '\n') == state_lines(entries).push(Seq::empty()),
        entries.len() > 0 ==> text::pieces(
            state_text(entries.drop_last()) + state_line(entries.last()),
            '\n',
        ) == state_lines(entries),
    decreases entries.len(),
{
    let f = |e: (Seq<char>, Seq<char>)| state_line(e) + seq!['\n'];
    if entries.len() == 0 {
        assert(state_text(entries) =~= Seq::<char>::empty());
        text::lemma_one_piece(state_text(entries), '\n');
        assert(text::pieces(state_text(entries), '\n') =~= state_lines(entries).push(
            Seq::<char>::empty(),
        ));
    } else {
        let rest = entries.drop_last();
        let line = state_line(entries.last());
        assert forall|i: int| 0 <= i < rest.len() implies !state_line(
            #[trigger] rest[i],
        ).contains('\n') by {
            assert(rest[i] == entries[i]);
        }
        lemma_state_splits(rest);
        assert(!state_line(entries[entries.len() - 1]).contains('\n'));
        text::lemma_one_piece(line, '\n');
        let head = state_text(rest) + line;
        assert(state_lines(entries) =~= state_lines(rest).push(line));
        if rest.len() == 0 {
            assert(state_text(rest) =~= Seq::<char>::empty());
            assert(head =~= line);
            assert(text::pieces(head, '\n') =~= state_lines(entries));
        } else {
            let before = state_text(rest.drop_last()) + state_line(rest.last());
            assert(state_text(rest) =~= before + seq!['\n']);
            assert(head =~= before + seq!['\n'] + line);
            text::lemma_pieces_add(before, '\n', line);
            assert(text::pieces(head, '\n') =~= state_lines(entries));
        }
        assert(state_text(entries) =~= head + seq!['\n'] + Seq::<char>::empty());
        text::lemma_pieces_add(head, '\n', Seq::empty());
        text::lemma_one_piece(Seq::<char>::empty(), '\n');
        assert(text::pieces(state_text(entries), '\n') =~= state_lines(entries).push(
            Seq::<char>::empty(),
        ));
    }
}

/// The value the last of `entries` with this key gives it.
pub open spec fn entry_value(entries: Seq<(Seq<char>, Seq<char>)>, key: Seq<char>) -> Option<
    Seq<char>,
>
    decreases entries.len(),
{
    if entries.len() == 0 {
        None
    } else if entries.last().0 == key {
        Some(entries.last().1)
    } else {
        entry_value(entries.drop_last(), key)
    }
}

/// Whether a key can be told from its value on a line: it holds no `=` and
/// no white space.
pub open spec fn plain_key(key: Seq<char>) -> bool {
    key.len() > 0 && forall|i: int|
        0 <= i < key.len() ==> #[trigger] key[i] != '=' && !text::is_space(key[i])
}

/// Trimming twice is trimming once.
proof fn lemma_trimmed_twice(s: Seq<char>)
    ensures
        text::trimmed(text::trimmed(s)) == text::trimmed(s),
{
    let t = text::trimmed_start(s);
    text::lemma_trimmed_start(s);
    lemma_trimmed_end(t);
    let u = text::trimmed_end(t);
    if u.len() > 0 {
        assert(u[0] == t[0]);
        text::lemma_trimmed_already(u);
    }
}

/// What [`text::trimmed_end`] promises.
proof fn lemma_trimmed_end(s: Seq<char>)
    ensures
        text::trimmed_end(s).len() <= s.len(),
        text::trimmed_end(s) == s.take(text::trimmed_end(s).len() as int),
        text::trimmed_end(s).len() > 0 ==> !text::is_space(text::trimmed_end(s).last()),
    decreases s.len(),
{
    if s.len() > 0 && text::is_space(s.last()) {
        lemma_trimmed_end(s.drop_last());
        let n = text::trimmed_end(s).len() as int;
        assert(s.drop_last().take(n) =~= s.take(n));
    } else {
        assert(s.take(s.len() as int) =~= s);
    }
}

/// A line reads back as its key and value.
proof fn lemma_line_reads_back(e: (Seq<char>, Seq<char>))
    requires
        plain_key(e.0),
        text::trimmed(e.1) == e.1,
    ensures
        text::first_index(state_line(e), '=') == e.0.len(),
        text::trimmed(state_line(e).take(e.0.len() as int)) == e.0,
        text::trimmed(state_line(e).skip(e.0.len() as int + 1)) == e.1,
{
    let line = state_line(e);
    let n = e.0.len() as int;
    assert forall|k: int| 0 <= k < n implies line[k] != '=' by {
        assert(line[k] == e.0[k]);
    }
    text::lemma_first_index_is(line, '=', n);
    assert(line.take(n) =~= e.0);
    assert(line.skip(n + 1) =~= e.1);
    assert(!text::is_space(e.0[0]));
    assert(!text::is_space(e.0[n - 1]));
    text::lemma_trimmed_already(e.0);
}

/// The lines of saved state give each key the value it was saved with.
proof fn lemma_lines_read_back(entries: Seq<(Seq<char>, Seq<char>)>, key: Seq<char>)
    requires
        forall|i: int|
            0 <= i < entries.len() ==> plain_key((#[trigger] entries[i]).0) && text::trimmed(
                entries[i].1,
            ) == entries[i].1,
    ensures
        saved_value(state_lines(entries), key) == entry_value(entries, key),
    decreases entries.len(),
{
    let lines = state_lines(entries);
    if entries.len() > 0 {
        let rest = entries.drop_last();
        assert(plain_key(entries[entries.len() - 1].0));
        lemma_line_reads_back(entries.last());
        assert(lines.last() == state_line(entries.last()));
        assert(lines.drop_last() =~= state_lines(rest));
        assert forall|i: int| 0 <= i < rest.len() implies plain_key((#[trigger] rest[i]).0)
            && text::trimmed(rest[i].1) == rest[i].1 by {
            assert(rest[i] == entries[i]);
        }
        lemma_lines_read_back(rest, key);
    }
}

/// One setting more, under another key, leaves a key's value.
proof fn lemma_entry_value_add(
    entries: Seq<(Seq<char>, Seq<char>)>,
    name: Seq<char>,
    value: Option<Seq<char>>,
    key: Seq<char>,
)
    ensures
        entry_value(entries + entry(name, value), key) == if name == key && value is Some {
            Some(text::trimmed(value->0))
        } else {
            entry_value(entries, key)
        },
{
    let all = entries + entry(name, value);
    match value {
        Some(v) => {
            assert(all.last() == (name, text::trimmed(v)));
            assert(all.drop_last() =~= entries);
        },
        None => {
            assert(all =~= entries);
        },
    }
}

/// A value as it comes back from saved state.
pub open spec fn kept_value(value: Option<Seq<char>>) -> Option<Seq<char>> {
    match value {
        Some(v) => Some(text::trimmed(v)),
        None => None,
    }
}

/// The keys are plain, and all different.
proof fn lemma_keys()
    ensures
        plain_key("no_turbo"@),
        plain_key("min_perf_pct"@),
        plain_key("governor"@),
        plain_key("randomize_va_space"@),
        plain_key("perf_event_paranoid"@),
        "no_turbo"@.len() == 8,
        "min_perf_pct"@.len() == 12,
        "governor"@.len() == 8,
        "no_turbo"@ != "governor"@,
        "randomize_va_space"@.len() == 18,
        "perf_event_paranoid"@.len() == 19,
{
    reveal_strlit("no_turbo");
    reveal_strlit("min_perf_pct");
    reveal_strlit("governor");
    reveal_strlit("randomize_va_space");
    reveal_strlit("perf_event_paranoid");
    assert("no_turbo"@[0] != "governor"@[0]);
}

/// Everything saved can be read back: its keys are plain, its values are
/// trimmed, and none of its lines is broken.
proof fn lemma_entries_kept(s: SettingsView)
    requires
        one_line(s.no_turbo),
        one_line(s.min_perf_pct),
        one_line(s.governor),
        one_line(s.randomize_va_space),
        one_line(s.perf_event_paranoid),
    ensures
        forall|i: int|
            0 <= i < setting_entries(s).len() ==> {
                let e = #[trigger] setting_entries(s)[i];
                plain_key(e.0) && text::trimmed(e.1) == e.1 && !state_line(e).contains('\n')
            },
{
    lemma_keys();
    let es = setting_entries(s);
    assert forall|i: int| 0 <= i < es.len() implies plain_key((#[trigger] es[i]).0)
        && text::trimmed(es[i].1) == es[i].1 && !es[i].1.contains('\n') by {
        lemma_entry_kept("no_turbo"@, s.no_turbo);
        lemma_entry_kept("min_perf_pct"@, s.min_perf_pct);
        lemma_entry_kept("governor"@, s.governor);
        lemma_entry_kept("randomize_va_space"@, s.randomize_va_space);
        lemma_entry_kept("perf_event_paranoid"@, s.perf_event_paranoid);
    }
    assert forall|i: int| 0 <= i < es.len() implies !state_line(#[trigger] es[i]).contains(
        '\n',
    ) by {
        let line = state_line(es[i]);
        let (k, v) = es[i];
        assert(plain_key(k));
        if line.contains('\n') {
            let p = choose|p: int| 0 <= p < line.len() && line[p] == '\n';
            if p < k.len() {
                assert(text::is_space(k[p]));
            } else {
                assert(v[p - k.len() - 1] == '\n');
                assert(v.contains('\n'));
            }
        }
    }
}

/// The value saved under `key`.
proof fn lemma_entries_value(s: SettingsView, key: Seq<char>)
    ensures
        entry_value(setting_entries(s), key) == {
            if key == "perf_event_paranoid"@ && s.perf_event_paranoid is Some {
                kept_value(s.perf_event_paranoid)
            } else if key == "randomize_va_space"@ && s.randomize_va_space is Some {
                kept_value(s.randomize_va_space)
            } else if key == "governor"@ && s.governor is Some {
                kept_value(s.governor)
            } else if key == "min_perf_pct"@ && s.min_perf_pct is Some {
                kept_value(s.min_perf_pct)
            } else if key == "no_turbo"@ && s.no_turbo is Some {
                kept_value(s.no_turbo)
            } else {
                None
            }
        },
{
    let none = Seq::<(Seq<char>, Seq<char>)>::empty();
    let a = entry("no_turbo"@, s.no_turbo);
    let b = a + entry("min_perf_pct"@, s.min_perf_pct);
    let c = b + entry("governor"@, s.governor);
    let d = c + entry("randomize_va_space"@, s.randomize_va_space);
    assert(none + a =~= a);
    lemma_entry_value_add(none, "no_turbo"@, s.no_turbo, key);
    lemma_entry_value_add(a, "min_perf_pct"@, s.min_perf_pct, key);
    lemma_entry_value_add(b, "governor"@, s.governor, key);
    lemma_entry_value_add(c, "randomize_va_space"@, s.randomize_va_space, key);
    lemma_entry_value_add(d, "perf_event_paranoid"@, s.perf_event_paranoid, key);
    assert(entry_value(none, key) is None);
}

/// What is loaded under `key` is what was saved there.
proof fn lemma_loaded_value(s: SettingsView, key: Seq<char>)
    requires
        one_line(s.no_turbo),
        one_line(s.min_perf_pct),
        one_line(s.governor),
        one_line(s.randomize_va_space),
        one_line(s.perf_event_paranoid),
    ensures
        saved_value(text::pieces(state_text(setting_entries(s)), '\n'), key) == entry_value(
            setting_entries(s),
            key,
        ),
{
    let es = setting_entries(s);
    lemma_entries_kept(s);
    lemma_state_splits(es);
    let lines = text::pieces(state_text(es), '\n');
    assert(lines.drop_last() =~= state_lines(es));
    assert(text::first_index(lines.last(), '=') == 0);
    lemma_lines_read_back(es, key);
}

/// What is saved comes back: each setting that could be read is loaded with
/// the value it had, and each that could not is still missing.
pub proof fn law_saved_state_comes_back(s: SettingsView)
    requires
        one_line(s.no_turbo),
        one_line(s.min_perf_pct),
        one_line(s.governor),
        one_line(s.randomize_va_space),
        one_line(s.perf_event_paranoid),
    ensures
        loaded(state_text(setting_entries(s))) == (SettingsView {
            no_turbo: kept_value(s.no_turbo),
            min_perf_pct: kept_value(s.min_perf_pct),
            governor: kept_value(s.governor),
            randomize_va_space: kept_value(s.randomize_va_space),
            perf_event_paranoid: kept_value(s.perf_event_paranoid),
        }),
{
    lemma_keys();
    lemma_loaded_value(s, "no_turbo"@);
    lemma_entries_value(s, "no_turbo"@);
    lemma_loaded_value(s, "min_perf_pct"@);
    lemma_entries_value(s, "min_perf_pct"@);
    lemma_loaded_value(s, "governor"@);
    lemma_entries_value(s, "governor"@);
    lemma_loaded_value(s, "randomize_va_space"@);
    lemma_entries_value(s, "randomize_va_space"@);
    lemma_loaded_value(s, "perf_event_paranoid"@);
    lemma_entries_value(s, "perf_event_paranoid"@);
}

/// What one setting adds to saved state can be read back.
proof fn lemma_entry_kept(key: Seq<char>, value: Option<Seq<char>>)
    requires
        plain_key(key),
        one_line(value),
    ensures
        forall|i: int|
            0 <= i < entry(key, value).len() ==> plain_key((#[trigger] entry(key, value)[i]).0)
                && text::trimmed(entry(key, value)[i].1) == entry(key, value)[i].1 && !entry(
                key,
                value,
            )[i].1.contains('\n'),
{
    match value {
        Some(v) => {
            lemma_trimmed_twice(v);
        },
        None => {},
    }
}

} // verus!
