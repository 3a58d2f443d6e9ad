//! The process table: per-process CPU usage from cumulative CPU-time deltas,
//! memory shares and GPU usage.

use super::gpu::{find_stat, stat_of, GpuProcStat};
use super::{delta, elapsed, held, percent, percent_of, plus_held, seconds, times_held};
use crate::chars::{join, joined, joined3, numeral, numeral_of, texts};
use super::{lemma_enough, lemma_seconds_value};
use crate::num::value::{
    grain, lemma_difference_value, lemma_divide_off, lemma_nearest_monotone, lemma_of_value, lemma_of_within,
    lemma_product_value, lemma_quotient_value, lemma_quotient_within, lemma_round_off, lemma_sign_of_value,
    lemma_value_units, lemma_vast, lemma_zero_stays, off_by, vast, within,
};
use crate::num::Num;
use crate::scan::{trim, trimmed};
use vstd::prelude::*;

verus! {

/// A snapshot of one running process for the table view.
#[derive(Debug)]
pub struct Process {
    pub pid: i32,
    pub ppid: i32,
    pub user: String,
    /// % of one core, htop-style (can exceed 100)
    pub cpu_percent: Num,
    /// RSS as a share of all memory
    pub mem_percent: Num,
    /// bytes
    pub rss: u64,
    /// SM utilisation attributed to this process
    pub gpu_percent: Num,
    /// GPU memory in use, bytes
    pub gpu_mem: u64,
    /// full command line, or [name] when none is readable
    pub command: String,
}

impl Process {
    /// The same again.
    pub fn copy(&self) -> (r: Process)
        ensures
            r == *self,
    {
        Process {
            pid: self.pid,
            ppid: self.ppid,
            user: self.user.clone(),
            cpu_percent: self.cpu_percent,
            mem_percent: self.mem_percent,
            rss: self.rss,
            gpu_percent: self.gpu_percent,
            gpu_mem: self.gpu_mem,
            command: self.command.clone(),
        }
    }
}

/// What was read of one process.
pub struct ProcSample {
    pub pid: i32,
    pub ppid: i32,
    pub user: String,
    /// Ticks spent in user mode.
    pub utime: u64,
    /// Ticks spent in the kernel.
    pub stime: u64,
    /// Resident pages.
    pub pages: u64,
    pub command: String,
}

/// A process's cumulative CPU seconds.
#[derive(Clone, Copy, Debug, PartialEq, Eq, Structural)]
pub struct CpuSeconds {
    pub pid: i32,
    pub secs: Num,
}

pub struct Processes {
    pub list: Vec<Process>,
    /// As of the previous update.
    pub prev_cpu: Vec<CpuSeconds>,
    pub prev_time: u64,
    /// Ticks in a second.
    pub ticks: u64,
    /// Bytes in a page.
    pub page_size: u64,
}

/// The last entry of a process.
pub open spec fn cpu_seconds_of(v: Seq<CpuSeconds>, pid: i32) -> Option<Num>
    decreases v.len(),
{
    if v.len() == 0 {
        None
    } else if v.last().pid == pid {
        Some(v.last().secs)
    } else {
        cpu_seconds_of(v.drop_last(), pid)
    }
}

fn find_seconds(v: &Vec<CpuSeconds>, pid: i32) -> (r: Option<Num>)
    ensures
        r == cpu_seconds_of(v@, pid),
{
    let mut i: usize = v.len();
    proof {
        assert(v@.take(i as int) =~= v@);
    }
    while i > 0
        invariant
            i <= v@.len(),
            cpu_seconds_of(v@, pid) == cpu_seconds_of(v@.take(i as int), pid),
        decreases i,
    {
        i = i - 1;
        proof {
            assert(v@.take(i + 1).drop_last() =~= v@.take(i as int));
            assert(v@.take(i + 1).last() == v@[i as int]);
        }
        if v[i].pid == pid {
            return Some(v[i].secs);
        }
    }
    proof {
        assert(v@.take(0).len() == 0);
    }
    None
}

impl ProcSample {
    /// Cumulative CPU time in seconds.
    pub open spec fn cpu_secs(&self, ticks: u64) -> Num {
        Num::of(held((self.utime + self.stime) as nat)).quotient(Num::of(ticks as nat))
    }

    /// Resident bytes.
    pub open spec fn resident(&self, page_size: u64) -> nat {
        held((self.pages * page_size) as nat)
    }
}

/// CPU usage since the previous sample, in percent of one core; zero where
/// there is none, no time has passed or the time went back.
pub open spec fn cpu_usage(prev: Option<Num>, secs: Num, dt: Num) -> Num {
    match prev {
        Some(p) => if Num::spec_zero().less(dt) && secs.at_least(p) {
            secs.difference(p).quotient(dt).product(Num::of(100))
        } else {
            Num::spec_zero()
        },
        None => Num::spec_zero(),
    }
}

/// The row of a process: figures from its sample, the previous one and the
/// GPU's entry for it.
pub open spec fn row_of(
    s: ProcSample,
    prev: Seq<CpuSeconds>,
    dt: Num,
    ticks: u64,
    page_size: u64,
    mem_total: u64,
    gpu: Seq<GpuProcStat>,
) -> Process {
    let rss = s.resident(page_size);
    let g = stat_of(gpu, s.pid as u32);
    Process {
        pid: s.pid,
        ppid: s.ppid,
        user: s.user,
        cpu_percent: cpu_usage(cpu_seconds_of(prev, s.pid), s.cpu_secs(ticks), dt),
        mem_percent: if mem_total > 0 {
            percent_of(rss, mem_total as nat)
        } else {
            Num::spec_zero()
        },
        rss: rss as u64,
        gpu_percent: match g {
            Some(x) => Num::of(x.sm_util as nat),
            None => Num::spec_zero(),
        },
        gpu_mem: match g {
            Some(x) => x.mem_used,
            None => 0,
        },
        command: s.command,
    }
}

/// The samples that have a command; the others are left out.
pub open spec fn named(v: Seq<ProcSample>) -> Seq<ProcSample>
    decreases v.len(),
{
    if v.len() == 0 {
        seq![]
    } else if v.last().command@.len() > 0 {
        named(v.drop_last()).push(v.last())
    } else {
        named(v.drop_last())
    }
}

impl Processes {
    /// An empty table on a machine with these units.
    pub fn new(ticks: u64, page_size: u64, now: u64) -> (r: Processes)
        ensures
            r.list@.len() == 0,
            r.prev_cpu@.len() == 0,
            r.prev_time == now,
            r.ticks == ticks,
            r.page_size == page_size,
    {
        Processes { list: Vec::new(), prev_cpu: Vec::new(), prev_time: now, ticks, page_size }
    }

    /// This is what stood before with a scan of all processes taken in.
    pub open spec fn took_in(
        &self,
        before: Processes,
        samples: Seq<ProcSample>,
        mem_total: u64,
        gpu: Seq<GpuProcStat>,
        now: u64,
    ) -> bool {
        let dt = seconds(delta(now, before.prev_time));
        let kept = named(samples);
        &&& self.list@ == Seq::new(
            kept.len(),
            |i: int| row_of(kept[i], before.prev_cpu@, dt, before.ticks, before.page_size, mem_total, gpu),
        )
        &&& self.prev_cpu@ == Seq::new(
            kept.len(),
            |i: int| CpuSeconds { pid: kept[i].pid, secs: kept[i].cpu_secs(before.ticks) },
        )
        &&& self.prev_time == now
        &&& self.ticks == before.ticks
        &&& self.page_size == before.page_size
    }

    /// Takes in a scan of all processes. `mem_total` scales memory shares and
    /// `gpu` attributes GPU usage to processes.
    pub fn update(&mut self, samples: &Vec<ProcSample>, mem_total: u64, gpu: &Vec<GpuProcStat>, now: u64)
        ensures
            final(self).took_in(*old(self), samples@, mem_total, gpu@, now),
    {
        let dt = elapsed(now, self.prev_time);
        let mut list: Vec<Process> = Vec::new();
        let mut cpu_now: Vec<CpuSeconds> = Vec::new();
        let mut i: usize = 0;
        proof {
            assert(samples@.take(0).len() == 0);
        }
        while i < samples.len()
            invariant
                i <= samples@.len(),
                *self == *old(self),
                dt == seconds(delta(now, self.prev_time)),
                list@.len() == named(samples@.take(i as int)).len(),
                cpu_now@.len() == list@.len(),
                forall|k: int|
                    0 <= k < list@.len() ==> #[trigger] list@[k] == row_of(
                        named(samples@.take(i as int))[k],
                        self.prev_cpu@,
                        dt,
                        self.ticks,
                        self.page_size,
                        mem_total,
                        gpu@,
                    ),
                forall|k: int|
                    0 <= k < list@.len() ==> #[trigger] cpu_now@[k] == (CpuSeconds {
                        pid: named(samples@.take(i as int))[k].pid,
                        secs: named(samples@.take(i as int))[k].cpu_secs(self.ticks),
                    }),
            decreases samples@.len() - i,
        {
            proof {
                assert(samples@.take(i + 1).drop_last() =~= samples@.take(i as int));
                assert(samples@.take(i + 1).last() == samples@[i as int]);
            }
            let s = &samples[i];
            if !s.command.as_str().is_empty() {
                let rss: u64 = times_held(s.pages, self.page_size);
                let secs = Num::from_u64(plus_held(s.utime, s.stime)).over(Num::from_u64(self.ticks));
                let cpu_percent = match find_seconds(&self.prev_cpu, s.pid) {
                    Some(p) => if Num::zero().lt(dt) && secs.ge(p) {
                        secs.minus(p).over(dt).times(Num::from_u64(100))
                    } else {
                        Num::zero()
                    },
                    None => Num::zero(),
                };
                let g = find_stat(gpu, s.pid as u32);
                let mem_percent = if mem_total > 0 {
                    percent(rss, mem_total)
                } else {
                    Num::zero()
                };
                let gpu_percent = match g {
                    Some(x) => Num::from_u64(x.sm_util as u64),
                    None => Num::zero(),
                };
                let gpu_mem: u64 = match g {
                    Some(x) => x.mem_used,
                    None => 0,
                };
                cpu_now.push(CpuSeconds { pid: s.pid, secs });
                list.push(
                    Process {
                        pid: s.pid,
                        ppid: s.ppid,
                        user: s.user.clone(),
                        cpu_percent,
                        mem_percent,
                        rss,
                        gpu_percent,
                        gpu_mem,
                        command: s.command.clone(),
                    },
                );
            }
            i = i + 1;
        }
        proof {
            assert(samples@.take(samples@.len() as int) =~= samples@);
            let kept = named(samples@);
            assert(list@ =~= Seq::new(
                kept.len(),
                |i: int|
                    row_of(kept[i], self.prev_cpu@, dt, self.ticks, self.page_size, mem_total, gpu@),
            ));
            assert(cpu_now@ =~= Seq::new(
                kept.len(),
                |i: int| CpuSeconds { pid: kept[i].pid, secs: kept[i].cpu_secs(self.ticks) },
            ));
        }
        self.list = list;
        self.prev_cpu = cpu_now;
        self.prev_time = now;
    }
}

/// Whole ticks in seconds.
proof fn lemma_ticks_value(n: nat, ticks: nat)
    requires
        n <= 0x20_0000_0000_0000,
        1 <= ticks <= 0x20_0000_0000_0000,
    ensures
        ({
            let s = Num::of(n).quotient(Num::of(ticks));
            &&& s.finite()
            &&& !s.negative()
            &&& within(s.value(), n as real / ticks as real, 4 as real)
            &&& n == 0 ==> s == Num::spec_zero()
            &&& n > 0 ==> (n as real / ticks as real) * 0x1_0000_0000_0000_0000 as real >= 1 as real
        }),
{
    lemma_of_value(ticks);
    lemma_value_units(Num::of(ticks));
    lemma_vast();
    let (a, b) = (n as real, ticks as real);
    let x = a / b;
    if n > 0 {
        lemma_of_within(n);
        lemma_of_within(ticks);
        assert(x * 0x1_0000_0000_0000_0000 as real >= 1 as real && x <= a) by (nonlinear_arith)
            requires
                x == a / b,
                a >= 1 as real,
                b >= 1 as real,
                b <= 0x20_0000_0000_0000 as real,
        {
            assert(x * b == a);
            assert(x > 0 as real);
            assert(x * b <= x * 0x20_0000_0000_0000 as real);
            assert(x * b >= x);
        }
        lemma_enough(x);
        lemma_quotient_within(Num::of(n), Num::of(ticks), a, b, 0 as real, 0 as real);
    } else {
        lemma_zero_stays(Num::of(ticks));
        lemma_value_units(Num::spec_zero());
        assert(x == 0 as real && x * (4 as real * grain()) == 0 as real) by (nonlinear_arith)
            requires
                x == 0 as real / b,
                b >= 1 as real,
        ;
    }
}

/// More ticks are no fewer seconds.
proof fn lemma_ticks_monotone(m: nat, n: nat, ticks: nat)
    requires
        m <= n <= 0x20_0000_0000_0000,
        1 <= ticks <= 0x20_0000_0000_0000,
    ensures
        Num::of(n).quotient(Num::of(ticks)).at_least(Num::of(m).quotient(Num::of(ticks))),
{
    lemma_of_value(m);
    lemma_of_value(n);
    lemma_of_value(ticks);
    lemma_ticks_value(m, ticks);
    lemma_ticks_value(n, ticks);
    let p = vstd::arithmetic::power2::pow2(1074);
    vstd::arithmetic::power2::lemma_pow2_pos(1074);
    let u = Num::of(ticks).units();
    assert(u > 0) by (nonlinear_arith)
        requires
            u == ticks * p,
            ticks >= 1,
            p > 0,
    ;
    crate::num::arith::lemma_zero_units(0);
    assert(((m * p) * p) * u <= ((n * p) * p) * u) by (nonlinear_arith)
        requires
            m <= n,
    ;
    lemma_nearest_monotone((m * p) * p, u, (n * p) * p, u);
}

/// The usage that growing from `m` to `n` ticks in `ns` nanoseconds comes to.
proof fn lemma_usage_value(m: nat, n: nat, ticks: nat, ns: nat)
    requires
        m <= n <= 0x20_0000_0000_0000,
        1 <= ticks <= 0x20_0000_0000_0000,
        0 < ns <= u64::MAX,
    ensures
        ({
            let p = Num::of(m).quotient(Num::of(ticks));
            let s = Num::of(n).quotient(Num::of(ticks));
            let u = cpu_usage(Some(p), s, seconds(ns));
            let d = ns as real / 1_000_000_000 as real;
            &&& u.finite()
            &&& off_by(
                u.value(),
                (n - m) as real / ticks as real / d * 100 as real,
                n as real / ticks as real / d * 100 as real,
                32 as real,
            )
        }),
{
    let p = Num::of(m).quotient(Num::of(ticks));
    let s = Num::of(n).quotient(Num::of(ticks));
    let dt = seconds(ns);
    let giga = 1_000_000_000 as real;
    let d = ns as real / giga;
    let t = ticks as real;
    let e = grain();
    lemma_ticks_value(m, ticks);
    lemma_ticks_value(n, ticks);
    lemma_ticks_monotone(m, n, ticks);
    lemma_seconds_value(ns);
    lemma_value_units(dt);
    lemma_value_units(p);
    lemma_value_units(s);
    lemma_vast();
    lemma_of_value(100);
    lemma_value_units(Num::of(100));
    assert(dt.mag() > 0);
    let (u0, u1) = (m as real / t, n as real / t);
    let x = (n - m) as real / t;
    assert(x == u1 - u0 && u0 >= 0 as real && u0 <= u1 && x >= 0 as real && x <= u1 && u1 <= 0x20_0000_0000_0000 as real)
        by (nonlinear_arith)
        requires
            u0 == m as real / t,
            u1 == n as real / t,
            x == (n - m) as real / t,
            t >= 1 as real,
            m <= n,
            n <= 0x20_0000_0000_0000,
    {
        assert(u0 * t == m as real && u1 * t == n as real && x * t == n as real - m as real);
        assert(u0 * t <= u1 * t);
        assert((u1 - u0) * t == x * t);
        assert(u1 * t >= u1);
    }
    assert(d > 0 as real && d <= 0x1_0000_0000_0000_0000 as real && d * giga >= 1 as real) by (nonlinear_arith)
        requires
            d == ns as real / giga,
            giga == 1_000_000_000 as real,
            ns >= 1,
            ns <= u64::MAX,
    ;
    let diff = s.difference(p);
    let q = diff.quotient(dt);
    let r = q.product(Num::of(100));
    if n == 0 {
        assert(m == 0);
        lemma_difference_value(s, p);
        lemma_sign_of_value(diff);
        lemma_value_units(diff);
        assert(diff == Num::spec_zero());
        lemma_zero_stays(dt);
        lemma_zero_stays(Num::of(100));
        lemma_value_units(Num::spec_zero());
        assert(x == 0 as real && u1 == 0 as real);
        assert(0 as real / d * 100 as real == 0 as real && 0 as real * (32 as real * e) == 0 as real) by (nonlinear_arith)
            requires
                d > 0 as real,
        ;
    } else {
        assert(u0 * (4 as real * e) <= u1 * (4 as real * e) && u1 * (4 as real * e) <= u1) by (nonlinear_arith)
            requires
                u0 <= u1,
                u1 >= 0 as real,
                e == 1 as real / 0x20_0000_0000_0000 as real,
        ;
        let y = s.value() - p.value();
        assert(u1 * (8 as real * e) == u1 * (4 as real * e) * 2 as real) by (nonlinear_arith);
        assert(off_by(y, x, u1, 8 as real));
        lemma_difference_value(s, p);
        lemma_enough(u1);
        lemma_round_off(diff.value(), y, x, u1, 8 as real);
        crate::num::arith::lemma_less_is_value_order(s, p);
        lemma_at_least(s, p);
        lemma_sign_of_value(diff);
        lemma_value_units(diff);
        lemma_divide_off(diff.value(), dt.value(), x, u1, d, 11 as real, 11 as real);
        let (xd, ud) = (x / d, u1 / d);
        assert(xd >= 0 as real && xd <= ud && ud * 0x1_0000_0000_0000_0000 as real * 0x1_0000_0000_0000_0000 as real >= 1 as real
            && ud <= 0x20_0000_0000_0000 as real * giga) by (nonlinear_arith)
            requires
                xd == x / d,
                ud == u1 / d,
                d > 0 as real,
                d <= 0x1_0000_0000_0000_0000 as real,
                d * giga >= 1 as real,
                x >= 0 as real,
                x <= u1,
                u1 * 0x1_0000_0000_0000_0000 as real >= 1 as real,
                u1 <= 0x20_0000_0000_0000 as real,
                giga == 1_000_000_000 as real,
        {
            let h = 0x1_0000_0000_0000_0000 as real;
            assert(xd * d == x && ud * d == u1);
            assert(xd * d <= ud * d);
            assert(ud > 0 as real);
            assert(ud * d <= ud * h);
            assert(ud * h >= u1);
            assert(ud * h * h >= u1 * h);
            assert(ud * (d * giga) == u1 * giga);
            assert(ud * (d * giga) >= ud);
        }
        let f = diff.value() / dt.value();
        lemma_enough(ud);
        assert(ud * (23 as real * e) <= ud) by (nonlinear_arith)
            requires
                ud >= 0 as real,
                e == 1 as real / 0x20_0000_0000_0000 as real,
        ;
        assert(f <= 2 as real * ud);
        assert(diff.value() <= vast() * dt.value()) by (nonlinear_arith)
            requires
                f == diff.value() / dt.value(),
                f <= vast(),
                dt.value() > 0 as real,
        {
            assert(f * dt.value() == diff.value());
        }
        lemma_quotient_value(diff, dt);
        lemma_round_off(q.value(), f, xd, ud, 23 as real);
        lemma_value_units(q);
        assert(ud * (26 as real * e) <= ud) by (nonlinear_arith)
            requires
                ud >= 0 as real,
                e == 1 as real / 0x20_0000_0000_0000 as real,
        ;
        assert(q.value() * 100 as real <= vast());
        lemma_product_value(q, Num::of(100));
        let (xc, uc) = (xd * 100 as real, ud * 100 as real);
        assert(uc * (26 as real * e) == ud * (26 as real * e) * 100 as real) by (nonlinear_arith)
            requires
                uc == ud * 100 as real,
        ;
        assert(off_by(q.value() * 100 as real, xc, uc, 26 as real));
        lemma_enough(uc);
        lemma_round_off(r.value(), q.value() * 100 as real, xc, uc, 26 as real);
        assert(uc * (29 as real * e) <= uc * (32 as real * e)) by (nonlinear_arith)
            requires
                uc >= 0 as real,
                e > 0 as real,
        ;
    }
}

/// What orders no lower has no lower value.
proof fn lemma_at_least(a: Num, b: Num)
    requires
        a.finite(),
        b.finite(),
        a.at_least(b),
    ensures
        a.value() >= b.value(),
{
    crate::num::arith::lemma_less_is_value_order(a, b);
    vstd::arithmetic::power2::lemma_pow2_pos(1074);
    let p = vstd::arithmetic::power2::pow2(1074) as real;
    let (x, y) = (a.signed_units() as real, b.signed_units() as real);
    assert(x / p >= y / p) by (nonlinear_arith)
        requires
            x >= y,
            p > 0 as real,
    ;
}

/// A process that has a command is among those kept.
proof fn lemma_named_has(v: Seq<ProcSample>, i: int) -> (k: int)
    requires
        0 <= i < v.len(),
        v[i].command@.len() > 0,
    ensures
        0 <= k < named(v).len(),
        named(v)[k] == v[i],
    decreases v.len(),
{
    if i == v.len() - 1 {
        named(v).len() - 1
    } else {
        lemma_named_has(v.drop_last(), i)
    }
}

/// Each process kept was given, with a command.
proof fn lemma_named_from(v: Seq<ProcSample>, k: int) -> (i: int)
    requires
        0 <= k < named(v).len(),
    ensures
        0 <= i < v.len(),
        v[i] == named(v)[k],
        v[i].command@.len() > 0,
    decreases v.len(),
{
    if v.last().command@.len() > 0 && k == named(v).len() - 1 {
        v.len() - 1
    } else {
        lemma_named_from(v.drop_last(), k)
    }
}

/// What is remembered of some processes.
spec fn entries(kept: Seq<ProcSample>, ticks: u64) -> Seq<CpuSeconds> {
    Seq::new(kept.len(), |i: int| CpuSeconds { pid: kept[i].pid, secs: kept[i].cpu_secs(ticks) })
}

/// What is remembered of a process is what its last sample said.
proof fn lemma_remembered(v: Seq<ProcSample>, i: int, ticks: u64)
    requires
        0 <= i < v.len(),
        v[i].command@.len() > 0,
        forall|k: int| i < k < v.len() ==> (#[trigger] v[k]).pid != v[i].pid,
    ensures
        cpu_seconds_of(entries(named(v), ticks), v[i].pid) == Some(v[i].cpu_secs(ticks)),
    decreases v.len(),
{
    let all = entries(named(v), ticks);
    let front = v.drop_last();
    if i < v.len() - 1 {
        assert forall|k: int| i < k < front.len() implies (#[trigger] front[k]).pid != front[i].pid by {
            assert(front[k] == v[k]);
        }
        lemma_remembered(front, i, ticks);
        if v.last().command@.len() > 0 {
            assert(v[v.len() - 1].pid != v[i].pid);
            assert(all.drop_last() =~= entries(named(front), ticks));
        }
    }
}

/// Of a process that was not there nothing is remembered.
proof fn lemma_forgotten(v: Seq<ProcSample>, pid: i32, ticks: u64)
    requires
        forall|k: int| 0 <= k < v.len() && (#[trigger] v[k]).pid == pid ==> v[k].command@.len() == 0,
    ensures
        cpu_seconds_of(entries(named(v), ticks), pid) is None,
    decreases v.len(),
{
    if v.len() > 0 {
        let front = v.drop_last();
        assert forall|k: int| 0 <= k < front.len() && (#[trigger] front[k]).pid == pid implies front[k].command@.len()
            == 0 by {
            assert(front[k] == v[k]);
        }
        lemma_forgotten(front, pid, ticks);
        if v.last().command@.len() > 0 {
            assert(v[v.len() - 1].pid != pid);
            assert(entries(named(v), ticks).drop_last() =~= entries(named(front), ticks));
        }
    }
}

/// The CPU usage of a process between two scans is the ticks that it spent in
/// user mode and in the kernel alike, over the time that passed, in percent of
/// one core; rounding moves it by a few parts in 2^53 of what all its ticks
/// would come to.
pub proof fn lemma_cpu_percent(
    start: Processes,
    p: Processes,
    q: Processes,
    s0: Seq<ProcSample>,
    s1: Seq<ProcSample>,
    mem: u64,
    gpu: Seq<GpuProcStat>,
    t0: u64,
    t1: u64,
    i: int,
    j: int,
)
    requires
        p.took_in(start, s0, mem, gpu, t0),
        q.took_in(p, s1, mem, gpu, t1),
        t0 < t1,
        1 <= start.ticks <= 0x20_0000_0000_0000,
        0 <= i < s0.len(),
        0 <= j < s1.len(),
        s0[i].command@.len() > 0,
        s1[j].command@.len() > 0,
        s0[i].pid == s1[j].pid,
        forall|k: int| i < k < s0.len() ==> (#[trigger] s0[k]).pid != s0[i].pid,
        s0[i].utime + s0[i].stime <= s1[j].utime + s1[j].stime <= 0x20_0000_0000_0000,
    ensures
        ({
            let spent = (s1[j].utime - s0[i].utime) + (s1[j].stime - s0[i].stime);
            let secs = (t1 - t0) as real / 1_000_000_000 as real;
            let all = s1[j].utime + s1[j].stime;
            exists|k: int|
                0 <= k < q.list@.len() && (#[trigger] q.list@[k]).pid == s1[j].pid && q.list@[k].command == s1[j].command
                    && off_by(
                    q.list@[k].cpu_percent.value(),
                    spent as real / start.ticks as real / secs * 100 as real,
                    all as real / start.ticks as real / secs * 100 as real,
                    32 as real,
                )
        }),
{
    let k = lemma_named_has(s1, j);
    let m = (s0[i].utime + s0[i].stime) as nat;
    let n = (s1[j].utime + s1[j].stime) as nat;
    lemma_remembered(s0, i, start.ticks);
    assert(p.prev_cpu@ =~= entries(named(s0), start.ticks));
    lemma_usage_value(m, n, start.ticks as nat, (t1 - t0) as nat);
    assert(q.list@[k].pid == s1[j].pid);
}

/// A process that was not in the previous scan shows no CPU usage yet.
pub proof fn lemma_no_past_no_usage(
    start: Processes,
    p: Processes,
    q: Processes,
    s0: Seq<ProcSample>,
    s1: Seq<ProcSample>,
    mem: u64,
    gpu: Seq<GpuProcStat>,
    t0: u64,
    t1: u64,
    k: int,
)
    requires
        p.took_in(start, s0, mem, gpu, t0),
        q.took_in(p, s1, mem, gpu, t1),
        0 <= k < q.list@.len(),
        forall|i: int| 0 <= i < s0.len() ==> (#[trigger] s0[i]).pid != q.list@[k].pid,
    ensures
        q.list@[k].cpu_percent == Num::spec_zero(),
{
    lemma_forgotten(s0, q.list@[k].pid, start.ticks);
    assert(p.prev_cpu@ =~= entries(named(s0), start.ticks));
}

/// A process whose ticks went back, as where its number was given anew, shows
/// no CPU usage.
pub proof fn lemma_ticks_back(
    start: Processes,
    p: Processes,
    q: Processes,
    s0: Seq<ProcSample>,
    s1: Seq<ProcSample>,
    mem: u64,
    gpu: Seq<GpuProcStat>,
    t0: u64,
    t1: u64,
    i: int,
    j: int,
)
    requires
        p.took_in(start, s0, mem, gpu, t0),
        q.took_in(p, s1, mem, gpu, t1),
        t0 < t1,
        1 <= start.ticks <= 0x20_0000_0000_0000,
        0 <= i < s0.len(),
        0 <= j < s1.len(),
        s0[i].command@.len() > 0,
        s1[j].command@.len() > 0,
        s0[i].pid == s1[j].pid,
        forall|k: int| i < k < s0.len() ==> (#[trigger] s0[k]).pid != s0[i].pid,
        s1[j].utime + s1[j].stime < s0[i].utime + s0[i].stime <= 0x20_0000_0000_0000,
    ensures
        exists|k: int|
            0 <= k < q.list@.len() && (#[trigger] q.list@[k]).pid == s1[j].pid && q.list@[k].command == s1[j].command
                && q.list@[k].cpu_percent.value() == 0 as real,
{
    let k = lemma_named_has(s1, j);
    let m = (s0[i].utime + s0[i].stime) as nat;
    let n = (s1[j].utime + s1[j].stime) as nat;
    lemma_remembered(s0, i, start.ticks);
    assert(p.prev_cpu@ =~= entries(named(s0), start.ticks));
    assert(q.list@[k].pid == s1[j].pid);
    let ticks = start.ticks as nat;
    let ns = (t1 - t0) as nat;
    lemma_ticks_value(m, ticks);
    lemma_ticks_value(n, ticks);
    lemma_ticks_monotone(n, m, ticks);
    lemma_seconds_value(ns);
    lemma_of_value(100);
    lemma_vast();
    lemma_value_units(Num::spec_zero());
    lemma_value_units(seconds(ns));
    let (a, b) = (Num::of(n).quotient(Num::of(ticks)), Num::of(m).quotient(Num::of(ticks)));
    lemma_zero_stays(seconds(ns));
    lemma_zero_stays(Num::of(100));
    if a.at_least(b) {
        assert(a == b);
        lemma_difference_value(a, b);
        lemma_sign_of_value(a.difference(b));
        lemma_value_units(a.difference(b));
        assert(a.difference(b) == Num::spec_zero());
    }
}

/// Ticks in user mode and ticks in the kernel count alike: moving some from
/// one to the other changes no row and nothing that is remembered.
pub proof fn lemma_kernel_time_counts(
    start: Processes,
    p: Processes,
    q: Processes,
    s: Seq<ProcSample>,
    t: Seq<ProcSample>,
    mem: u64,
    gpu: Seq<GpuProcStat>,
    now: u64,
)
    requires
        p.took_in(start, s, mem, gpu, now),
        q.took_in(start, t, mem, gpu, now),
        s.len() == t.len(),
        forall|i: int|
            0 <= i < s.len() ==> (#[trigger] s[i]).utime + s[i].stime == t[i].utime + t[i].stime && s[i] == (ProcSample {
                utime: s[i].utime,
                stime: s[i].stime,
                ..t[i]
            }),
    ensures
        p.list@ == q.list@,
        p.prev_cpu@ == q.prev_cpu@,
{
    lemma_named_alike(s, t);
    let (a, b) = (named(s), named(t));
    assert forall|k: int| 0 <= k < a.len() implies #[trigger] p.list@[k] == q.list@[k] && p.prev_cpu@[k] == q.prev_cpu@[k] by {
        assert(a[k].cpu_secs(start.ticks) == b[k].cpu_secs(start.ticks));
    }
    assert(p.list@ =~= q.list@);
    assert(p.prev_cpu@ =~= q.prev_cpu@);
}

proof fn lemma_named_alike(s: Seq<ProcSample>, t: Seq<ProcSample>)
    requires
        s.len() == t.len(),
        forall|i: int|
            0 <= i < s.len() ==> (#[trigger] s[i]).utime + s[i].stime == t[i].utime + t[i].stime && s[i] == (ProcSample {
                utime: s[i].utime,
                stime: s[i].stime,
                ..t[i]
            }),
    ensures
        named(s).len() == named(t).len(),
        forall|k: int|
            0 <= k < named(s).len() ==> (#[trigger] named(s)[k]).utime + named(s)[k].stime == named(t)[k].utime + named(
                t,
            )[k].stime && named(s)[k] == (ProcSample {
                utime: named(s)[k].utime,
                stime: named(s)[k].stime,
                ..named(t)[k]
            }),
    decreases s.len(),
{
    if s.len() > 0 {
        let (a, b) = (s.drop_last(), t.drop_last());
        assert forall|i: int| 0 <= i < a.len() implies (#[trigger] a[i]).utime + a[i].stime == b[i].utime + b[i].stime
            && a[i] == (ProcSample { utime: a[i].utime, stime: a[i].stime, ..b[i] }) by {
            assert(a[i] == s[i] && b[i] == t[i]);
        }
        lemma_named_alike(a, b);
        assert(s[s.len() - 1].command == t[t.len() - 1].command);
    }
}

/// A row's memory is its resident pages, in bytes and as a share of all; its
/// GPU figures are those that the driver lists for its number. Processes
/// without a command are left out, and the others stay in order.
pub proof fn lemma_rows_from_samples(
    start: Processes,
    p: Processes,
    s: Seq<ProcSample>,
    mem: u64,
    gpu: Seq<GpuProcStat>,
    now: u64,
    k: int,
)
    requires
        p.took_in(start, s, mem, gpu, now),
        0 <= k < p.list@.len(),
    ensures
        exists|i: int|
            0 <= i < s.len() && #[trigger] s[i].pid == p.list@[k].pid && s[i].command@.len() > 0 && p.list@[k].command
                == s[i].command && p.list@[k].ppid == s[i].ppid && p.list@[k].user == s[i].user && (s[i].pages
                * start.page_size <= u64::MAX ==> p.list@[k].rss == s[i].pages * start.page_size),
        mem > 0 ==> within(
            p.list@[k].mem_percent.value(),
            p.list@[k].rss as real / mem as real * 100 as real,
            14 as real,
        ),
        (forall|g: int| 0 <= g < gpu.len() ==> (#[trigger] gpu[g]).pid != p.list@[k].pid as u32) ==> p.list@[k].gpu_percent
            == Num::spec_zero() && p.list@[k].gpu_mem == 0,
        forall|g: int|
            0 <= g < gpu.len() && (#[trigger] gpu[g]).pid == p.list@[k].pid as u32 && (forall|h: int|
                g < h < gpu.len() ==> (#[trigger] gpu[h]).pid != gpu[g].pid) ==> p.list@[k].gpu_percent.value()
                == gpu[g].sm_util as real && p.list@[k].gpu_mem == gpu[g].mem_used,
{
    let i = lemma_named_from(s, k);
    assert(s[i].pid == p.list@[k].pid);
    if mem > 0 {
        super::lemma_percent_value(p.list@[k].rss as nat, mem as nat);
    }
    if forall|g: int| 0 <= g < gpu.len() ==> (#[trigger] gpu[g]).pid != p.list@[k].pid as u32 {
        super::gpu::lemma_stat_absent(gpu, p.list@[k].pid as u32);
    }
    assert forall|g: int|
        0 <= g < gpu.len() && (#[trigger] gpu[g]).pid == p.list@[k].pid as u32 && (forall|h: int|
            g < h < gpu.len() ==> (#[trigger] gpu[h]).pid != gpu[g].pid) implies p.list@[k].gpu_percent.value()
        == gpu[g].sm_util as real && p.list@[k].gpu_mem == gpu[g].mem_used by {
        super::gpu::lemma_stat_found(gpu, gpu[g].pid, g);
        lemma_of_value(gpu[g].sm_util as nat);
    }
}

/// A process as measured elsewhere, its CPU usage already computed.
#[derive(Clone, Debug)]
pub struct MeasuredSample {
    pub pid: i32,
    pub ppid: i32,
    pub user: String,
    pub cpu_percent: Num,
    /// Resident bytes.
    pub rss: u64,
    pub command: String,
}

/// The row of a process measured elsewhere.
pub open spec fn measured_row(s: MeasuredSample, mem_total: u64, gpu: Seq<GpuProcStat>) -> Process {
    let g = stat_of(gpu, s.pid as u32);
    Process {
        pid: s.pid,
        ppid: s.ppid,
        user: s.user,
        cpu_percent: s.cpu_percent,
        mem_percent: if mem_total > 0 {
            percent_of(s.rss as nat, mem_total as nat)
        } else {
            Num::spec_zero()
        },
        rss: s.rss,
        gpu_percent: match g {
            Some(x) => Num::of(x.sm_util as nat),
            None => Num::spec_zero(),
        },
        gpu_mem: match g {
            Some(x) => x.mem_used,
            None => 0,
        },
        command: s.command,
    }
}

/// The rows of the first `n` processes measured elsewhere; those without a
/// command are left out.
pub open spec fn measured_rows(v: Seq<MeasuredSample>, mem_total: u64, gpu: Seq<GpuProcStat>, n: nat) -> Seq<Process>
    decreases n,
{
    if n == 0 {
        seq![]
    } else {
        let before = measured_rows(v, mem_total, gpu, (n - 1) as nat);
        if v[n - 1].command@.len() > 0 {
            before.push(measured_row(v[n - 1], mem_total, gpu))
        } else {
            before
        }
    }
}

impl Processes {
    /// This is what stood before with the rows of processes measured
    /// elsewhere.
    pub open spec fn took_measured(
        &self,
        before: Processes,
        samples: Seq<MeasuredSample>,
        mem_total: u64,
        gpu: Seq<GpuProcStat>,
    ) -> bool {
        &&& self.list@ == measured_rows(samples, mem_total, gpu, samples.len())
        &&& self.prev_cpu == before.prev_cpu
        &&& self.prev_time == before.prev_time
        &&& self.ticks == before.ticks
        &&& self.page_size == before.page_size
    }

    /// Takes in all processes as measured elsewhere.
    pub fn update_measured(&mut self, samples: &Vec<MeasuredSample>, mem_total: u64, gpu: &Vec<GpuProcStat>)
        ensures
            final(self).took_measured(*old(self), samples@, mem_total, gpu@),
    {
        let mut list: Vec<Process> = Vec::new();
        let mut i: usize = 0;
        proof {
            assert(list@ =~= measured_rows(samples@, mem_total, gpu@, 0));
        }
        while i < samples.len()
            invariant
                i <= samples@.len(),
                *self == *old(self),
                list@ == measured_rows(samples@, mem_total, gpu@, i as nat),
            decreases samples@.len() - i,
        {
            let s = &samples[i];
            if !s.command.as_str().is_empty() {
                let g = find_stat(gpu, s.pid as u32);
                let mem_percent = if mem_total > 0 {
                    percent(s.rss, mem_total)
                } else {
                    Num::zero()
                };
                let gpu_percent = match g {
                    Some(x) => Num::from_u64(x.sm_util as u64),
                    None => Num::zero(),
                };
                let gpu_mem: u64 = match g {
                    Some(x) => x.mem_used,
                    None => 0,
                };
                list.push(
                    Process {
                        pid: s.pid,
                        ppid: s.ppid,
                        user: s.user.clone(),
                        cpu_percent: s.cpu_percent,
                        mem_percent,
                        rss: s.rss,
                        gpu_percent,
                        gpu_mem,
                        command: s.command.clone(),
                    },
                );
            }
            i = i + 1;
        }
        self.list = list;
    }
}

/// The text of a process's command: the full command line, the bracketed name
/// for processes without one (kernel threads), or nothing.
pub open spec fn command_text(args: Option<Seq<Seq<char>>>, comm: Seq<char>) -> Seq<char> {
    if args is Some && trimmed(joined(args->0, " "@)).len() > 0 {
        joined(args->0, " "@)
    } else if comm.len() > 0 {
        "["@ + comm + "]"@
    } else {
        seq![]
    }
}

/// The full command line, `[comm]` for processes without one (kernel threads),
/// or nothing when nothing is readable at all.
pub fn command(args: Option<&Vec<String>>, comm: &str) -> (r: String)
    ensures
        r@ == command_text(
            match args {
                Some(a) => Some(texts(a@)),
                None => None,
            },
            comm@,
        ),
{
    if let Some(a) = args {
        let line = join(a, " ");
        if !trim(line.as_str()).as_str().is_empty() {
            return line;
        }
    }
    if !comm.is_empty() {
        return joined3("[", comm, "]");
    }
    let out = String::new();
    proof {
        assert(out@ =~= seq![]);
    }
    out
}

/// A looked-up user.
pub struct UserName {
    pub uid: u32,
    pub name: String,
}

/// User names looked up so far.
pub struct Users {
    pub list: Vec<UserName>,
}

/// The last name of a user in a list.
pub open spec fn name_of(v: Seq<UserName>, uid: u32) -> Option<Seq<char>>
    decreases v.len(),
{
    if v.len() == 0 {
        None
    } else if v.last().uid == uid {
        Some(v.last().name@)
    } else {
        name_of(v.drop_last(), uid)
    }
}

impl Users {
    /// The name remembered for a user.
    pub open spec fn known(&self, uid: u32) -> Option<Seq<char>> {
        name_of(self.list@, uid)
    }

    pub fn new() -> (r: Users)
        ensures
            forall|uid: u32| #[trigger] r.known(uid) is None,
    {
        Users { list: Vec::new() }
    }

    /// The name remembered for a user.
    pub fn find(&self, uid: u32) -> (r: Option<String>)
        ensures
            match r {
                Some(n) => self.known(uid) == Some(n@),
                None => self.known(uid) is None,
            },
    {
        let mut i: usize = self.list.len();
        proof {
            assert(self.list@.take(i as int) =~= self.list@);
        }
        while i > 0
            invariant
                i <= self.list@.len(),
                name_of(self.list@.take(i as int), uid) == self.known(uid),
            decreases i,
        {
            proof {
                assert(self.list@.take(i as int).drop_last() =~= self.list@.take(i - 1));
            }
            i = i - 1;
            if self.list[i].uid == uid {
                return Some(self.list[i].name.clone());
            }
        }
        None
    }

    /// Remembers a looked-up user: by name where the lookup gave one, by
    /// number otherwise.
    pub fn learn(&mut self, uid: u32, name: Option<String>) -> (r: String)
        ensures
            r@ == match name {
                Some(n) => n@,
                None => numeral(uid as nat),
            },
            forall|u: u32| #[trigger]
                final(self).known(u) == if u == uid {
                    Some(r@)
                } else {
                    old(self).known(u)
                },
    {
        let text = match name {
            Some(n) => n,
            None => numeral_of(uid as u64),
        };
        self.list.push(UserName { uid, name: text.clone() });
        proof {
            assert(self.list@.drop_last() =~= old(self).list@);
        }
        text
    }
}

proof fn lemma_measured_from(v: Seq<MeasuredSample>, mem: u64, gpu: Seq<GpuProcStat>, n: nat, k: int) -> (i: int)
    requires
        n <= v.len(),
        0 <= k < measured_rows(v, mem, gpu, n).len(),
    ensures
        0 <= i < n,
        v[i].command@.len() > 0,
        measured_rows(v, mem, gpu, n)[k] == measured_row(v[i], mem, gpu),
    decreases n,
{
    let before = measured_rows(v, mem, gpu, (n - 1) as nat);
    if k < before.len() {
        lemma_measured_from(v, mem, gpu, (n - 1) as nat, k)
    } else {
        n - 1
    }
}

proof fn lemma_measured_to(v: Seq<MeasuredSample>, mem: u64, gpu: Seq<GpuProcStat>, n: nat, i: int) -> (k: int)
    requires
        n <= v.len(),
        0 <= i < n,
        v[i].command@.len() > 0,
    ensures
        0 <= k < measured_rows(v, mem, gpu, n).len(),
        measured_rows(v, mem, gpu, n)[k] == measured_row(v[i], mem, gpu),
    decreases n,
{
    let before = measured_rows(v, mem, gpu, (n - 1) as nat);
    if i < n - 1 {
        lemma_measured_to(v, mem, gpu, (n - 1) as nat, i)
    } else {
        before.len() as int
    }
}

/// A process measured elsewhere is listed with the figures measured, its memory
/// as a share of the machine's.
pub open spec fn measured_as(r: Process, s: MeasuredSample, mem: u64) -> bool {
    &&& r.pid == s.pid
    &&& r.ppid == s.ppid
    &&& r.user == s.user
    &&& r.cpu_percent == s.cpu_percent
    &&& r.rss == s.rss
    &&& r.command == s.command
    &&& mem > 0 ==> within(r.mem_percent.value(), s.rss as real / mem as real * 100 as real, 14 as real)
}

/// Whether a row is that of some process with a command.
pub open spec fn measured_in(r: Process, v: Seq<MeasuredSample>, mem: u64) -> bool {
    exists|i: int| 0 <= i < v.len() && v[i].command@.len() > 0 && measured_as(r, #[trigger] v[i], mem)
}

/// Whether a process has a row.
pub open spec fn measured_row_in(s: MeasuredSample, rows: Seq<Process>, mem: u64) -> bool {
    exists|k: int| 0 <= k < rows.len() && measured_as(#[trigger] rows[k], s, mem)
}

/// Of the processes measured elsewhere those with a command are listed, and no
/// others.
pub proof fn lemma_measured_listed(
    start: Processes,
    p: Processes,
    v: Seq<MeasuredSample>,
    mem: u64,
    gpu: Seq<GpuProcStat>,
)
    requires
        p.took_measured(start, v, mem, gpu),
    ensures
        forall|k: int| 0 <= k < p.list@.len() ==> measured_in(#[trigger] p.list@[k], v, mem),
        forall|i: int|
            0 <= i < v.len() && v[i].command@.len() > 0 ==> measured_row_in(#[trigger] v[i], p.list@, mem),
{
    assert forall|k: int| 0 <= k < p.list@.len() implies measured_in(#[trigger] p.list@[k], v, mem) by {
        let i = lemma_measured_from(v, mem, gpu, v.len(), k);
        lemma_measured_share(v[i], mem, gpu);
        assert(measured_as(p.list@[k], v[i], mem));
    }
    assert forall|i: int| 0 <= i < v.len() && v[i].command@.len() > 0 implies measured_row_in(
        #[trigger] v[i],
        p.list@,
        mem,
    ) by {
        let k = lemma_measured_to(v, mem, gpu, v.len(), i);
        lemma_measured_share(v[i], mem, gpu);
        assert(measured_as(p.list@[k], v[i], mem));
    }
}

proof fn lemma_measured_share(s: MeasuredSample, mem: u64, gpu: Seq<GpuProcStat>)
    ensures
        measured_as(measured_row(s, mem, gpu), s, mem),
{
    if mem > 0 {
        super::lemma_percent_value(s.rss as nat, mem as nat);
    }
}

/// A name looked up is the one that was last remembered for the user, whoever
/// else's were.
pub proof fn lemma_names_apart(v: Seq<UserName>, u: UserName, uid: u32)
    ensures
        name_of(v.push(u), uid) == if u.uid == uid {
            Some(u.name@)
        } else {
            name_of(v, uid)
        },
{
    assert(v.push(u).drop_last() =~= v);
}

} // verus!
