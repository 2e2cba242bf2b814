//! What the machine was doing around a sample.
//!
//! No statistic computed from timings can see a run that was uniformly slow.
//! The system can: it knows the clock frequency of the core and which core it
//! was. What it says is recorded here beside the measurement.

use crate::text;
use vstd::prelude::*;

verus! {

/// Whether `hi` is more than one percent above `lo`, where anything was read
/// at all.
///
/// Not exactly equal, because the reported frequency does not hold still even
/// when the hardware does. One percent, because that is where a frequency
/// change starts to matter against the accuracy asked for by default.
pub open spec fn moved(lo_khz: u64, hi_khz: u64) -> bool {
    lo_khz != 0 && 100 * hi_khz > 101 * lo_khz
}

/// Did the clock move between the lowest and highest readings of a run?
///
/// Where nothing was ever read no movement was seen, which is not the same as
/// there having been none.
pub fn khz_moved(lo_khz: u64, hi_khz: u64) -> (out: bool)
    ensures
        out == moved(lo_khz, hi_khz),
{
    if lo_khz == 0 {
        return false;
    }
    100u128 * hi_khz as u128 > 101u128 * lo_khz as u128
}

/// What the system said about the conditions around one edge of a sample.
#[derive(Clone, Copy, Debug, PartialEq, Eq)]
pub struct Reading {
    /// Which CPU this thread was on, or `-1` where that is unknown.
    pub cpu: i32,
    /// The core's clock frequency in kHz, or `0` where unknown.
    pub khz: u64,
}

/// What has been read over a run.
#[derive(Clone, Copy, Debug, PartialEq, Eq)]
pub struct Probes {
    lo_khz: u64,
    hi_khz: u64,
    first_cpu: Option<i32>,
    migrated: bool,
}

/// Whether `p` is the record of exactly these readings.
pub open spec fn records(p: Probes, readings: Seq<Reading>) -> bool {
    &&& p.first_on() == if readings.len() == 0 {
        None
    } else {
        Some(readings[0].cpu)
    }
    &&& p.has_migrated() == exists|i: int|
        0 <= i < readings.len() && (#[trigger] readings[i]).cpu != readings[0].cpu
    &&& (p.lowest() == 0) == (forall|i: int|
        0 <= i < readings.len() ==> (#[trigger] readings[i]).khz == 0)
    &&& p.lowest() != 0 ==> exists|i: int|
        0 <= i < readings.len() && (#[trigger] readings[i]).khz == p.lowest()
    &&& p.highest() != 0 ==> exists|i: int|
        0 <= i < readings.len() && (#[trigger] readings[i]).khz == p.highest()
    &&& forall|i: int|
        0 <= i < readings.len() && (#[trigger] readings[i]).khz != 0 ==> p.lowest()
            <= readings[i].khz <= p.highest()
    &&& p.lowest() == 0 ==> p.highest() == 0
}

impl Probes {
    /// The lowest frequency read, or zero where none was.
    pub closed spec fn lowest(self) -> u64 {
        self.lo_khz
    }

    /// The highest frequency read, or zero where none was.
    pub closed spec fn highest(self) -> u64 {
        self.hi_khz
    }

    /// The CPU of the first reading.
    pub closed spec fn first_on(self) -> Option<i32> {
        self.first_cpu
    }

    /// Whether a later reading was on another CPU.
    pub closed spec fn has_migrated(self) -> bool {
        self.migrated
    }

    /// Nothing read yet.
    pub fn new() -> (p: Probes)
        ensures
            records(p, Seq::empty()),
    {
        Probes { lo_khz: 0, hi_khz: 0, first_cpu: None, migrated: false }
    }

    /// Throw away everything recorded so far.
    ///
    /// For the boundary between warmup and measurement: calibration is
    /// exactly when an idle core wakes up and climbs to its working
    /// frequency.
    pub fn forget(&mut self)
        ensures
            records(*final(self), Seq::empty()),
    {
        self.lo_khz = 0;
        self.hi_khz = 0;
        self.first_cpu = None;
        self.migrated = false;
    }

    /// Fold one reading into the record.
    pub fn note(&mut self, cpu: i32, khz: u64) -> (reading: Reading)
        ensures
            reading == (Reading { cpu, khz }),
            forall|had: Seq<Reading>| #[trigger]
                records(*old(self), had) ==> records(*final(self), had.push(reading)),
    {
        match self.first_cpu {
            None => {
                self.first_cpu = Some(cpu);
            },
            Some(first) => {
                if first != cpu {
                    self.migrated = true;
                }
            },
        }
        if khz != 0 {
            if self.lo_khz == 0 || khz < self.lo_khz {
                self.lo_khz = khz;
            }
            if khz > self.hi_khz {
                self.hi_khz = khz;
            }
        }
        let reading = Reading { cpu, khz };
        proof {
            assert forall|had: Seq<Reading>| #[trigger] records(*old(self), had) implies records(
                *self,
                had.push(reading),
            ) by {
                lemma_records_push(*old(self), *self, had, reading);
            }
        }
        reading
    }

    /// Did the clock move under this run?
    ///
    /// True when the frequency wandered by more than the tolerance, or when
    /// the thread was seen on more than one CPU: a migration invalidates the
    /// frequency comparison.
    pub fn clock_moved(&self) -> (out: bool)
        ensures
            out == (self.has_migrated() || moved(self.lowest(), self.highest())),
    {
        self.migrated || khz_moved(self.lo_khz, self.hi_khz)
    }
}

/// One more reading.
proof fn lemma_records_push(before: Probes, after: Probes, had: Seq<Reading>, r: Reading)
    requires
        records(before, had),
        after.first_cpu == match before.first_cpu {
            None => Some(r.cpu),
            Some(c) => Some(c),
        },
        after.migrated == (before.migrated || (before.first_cpu is Some && before.first_cpu
            != Some(r.cpu))),
        after.lo_khz == if r.khz != 0 && (before.lo_khz == 0 || r.khz < before.lo_khz) {
            r.khz
        } else {
            before.lo_khz
        },
        after.hi_khz == if r.khz != 0 && r.khz > before.hi_khz {
            r.khz
        } else {
            before.hi_khz
        },
    ensures
        records(after, had.push(r)),
{
    let all = had.push(r);
    let n = had.len() as int;
    assert(all[n] == r);
    assert(forall|i: int| 0 <= i < n ==> all[i] == had[i]);
    if before.migrated {
        let i = choose|i: int| 0 <= i < had.len() && (#[trigger] had[i]).cpu != had[0].cpu;
        assert(all[i].cpu != all[0].cpu);
    }
    if after.migrated && !before.migrated {
        assert(all[n].cpu != all[0].cpu);
    }
    if before.lo_khz != 0 {
        let i = choose|i: int| 0 <= i < had.len() && (#[trigger] had[i]).khz == before.lo_khz;
        assert(all[i].khz == before.lo_khz);
    }
    if before.hi_khz != 0 {
        let i = choose|i: int| 0 <= i < had.len() && (#[trigger] had[i]).khz == before.hi_khz;
        assert(all[i].khz == before.hi_khz);
    }
    assert forall|i: int| 0 <= i < all.len() && (#[trigger] all[i]).khz != 0 implies after.lo_khz
        <= all[i].khz <= after.hi_khz by {
        if i < n {
            assert(had[i].khz != 0);
        }
    }
    if forall|i: int| 0 <= i < all.len() ==> (#[trigger] all[i]).khz == 0 {
        assert forall|i: int| 0 <= i < had.len() implies (#[trigger] had[i]).khz == 0 by {
            assert(all[i].khz == 0);
        }
    }
}

/// The clock has moved exactly when some two known frequencies of the run are
/// further apart than the tolerance, or the thread changed CPU.
pub proof fn law_clock_moved_is_about_the_run(p: Probes, readings: Seq<Reading>)
    requires
        records(p, readings),
    ensures
        (p.has_migrated() || moved(p.lowest(), p.highest())) <==> (exists|i: int|
            0 <= i < readings.len() && (#[trigger] readings[i]).cpu != readings[0].cpu) || (exists|
            i: int,
            j: int,
        |
            #![trigger readings[i], readings[j]]
            0 <= i < readings.len() && 0 <= j < readings.len() && moved(
                readings[i].khz,
                readings[j].khz,
            )),
{
    if moved(p.lowest(), p.highest()) {
        let i = choose|i: int|
            0 <= i < readings.len() && (#[trigger] readings[i]).khz == p.lowest();
        let j = choose|j: int|
            0 <= j < readings.len() && (#[trigger] readings[j]).khz == p.highest();
        assert(moved(readings[i].khz, readings[j].khz));
    }
    if exists|i: int, j: int|
        #![trigger readings[i], readings[j]]
        0 <= i < readings.len() && 0 <= j < readings.len() && moved(
            readings[i].khz,
            readings[j].khz,
        ) {
        let (i, j) = choose|i: int, j: int|
            #![trigger readings[i], readings[j]]
            0 <= i < readings.len() && 0 <= j < readings.len() && moved(
                readings[i].khz,
                readings[j].khz,
            );
        assert(p.lowest() <= readings[i].khz);
        assert(readings[j].khz <= p.highest());
    }
}

/// The frequency that the text of the kernel's file gives, or zero where it
/// gives none.
pub fn read_khz(contents: &str) -> (khz: u64)
    ensures
        khz == match text::number_up_to(text::trimmed(contents@), u64::MAX as nat) {
            Some(n) => n,
            None => 0,
        },
{
    match text::parse_u64(text::trim(contents)) {
        Some(n) => n,
        None => 0,
    }
}

/// A clock reading of seconds and nanoseconds, in nanoseconds, modulo 2^64.
pub fn clock_ns(seconds: u64, nanos: u64) -> (out: u64)
    ensures
        out as int == (seconds * 1_000_000_000 + nanos) % 0x1_0000_0000_0000_0000,
{
    let whole: u64 = seconds.wrapping_mul(1_000_000_000);
    let out: u64 = whole.wrapping_add(nanos);
    proof {
        let m = 0x1_0000_0000_0000_0000int;
        let x = seconds * 1_000_000_000;
        assert(whole as int == x % m);
        assert(out as int == (x % m + nanos) % m) by {
            vstd::arithmetic::div_mod::lemma_small_mod(nanos as nat, m as nat);
        }
        vstd::arithmetic::div_mod::lemma_add_mod_noop_right(nanos as int, x as int, m);
    }
    out
}

/// Nanoseconds from `start` to `now`, zero where the clock went backwards.
pub fn elapsed_ns(start: u64, now: u64) -> (out: u64)
    ensures
        out == if now >= start {
            (now - start) as u64
        } else {
            0u64
        },
{
    if now >= start {
        now - start
    } else {
        0
    }
}

/// A clock has moved where its highest reading exceeds the lowest by more than
/// a hundredth of it. Equal readings never do, nor does a clock that could not
/// be read.
pub proof fn law_a_hundredth_is_tolerated(lo_khz: u64, hi_khz: u64)
    ensures
        moved(lo_khz, hi_khz) <==> lo_khz > 0 && hi_khz > lo_khz && (hi_khz - lo_khz) * 100 > lo_khz,
        !moved(lo_khz, lo_khz),
        !moved(0, hi_khz),
{
}

} // verus!
