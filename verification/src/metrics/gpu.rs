//! NVIDIA GPU telemetry. Degrades gracefully: without a driver or a GPU,
//! `available` is false and `err` explains why.

use super::{held, lemma_enough, lemma_percent_value, percent, percent_of, plus_held};
use crate::chars::joined2;
use crate::num::value::{
    grain, lemma_of_arith, lemma_of_value, lemma_of_within, lemma_quotient_within, lemma_value_units, lemma_vast,
    lemma_zero_stays, within,
};
use crate::num::Num;
use vstd::prelude::*;

verus! {

/// A snapshot of one GPU's telemetry.
pub struct GpuDevice {
    pub index: usize,
    pub name: String,
    /// %
    pub gpu_util: u32,
    pub mem_total: u64,
    pub mem_used: u64,
    pub mem_used_percent: Num,
    /// Celsius
    pub temperature: u32,
    /// milliwatts
    pub power_draw: u32,
    /// milliwatts
    pub power_limit: u32,
}

/// Telemetry over every device.
#[derive(Clone, Copy, Debug, PartialEq, Eq, Structural)]
pub struct GpuSummary {
    pub count: usize,
    /// mean across devices, %
    pub gpu_util: Num,
    pub mem_used: u64,
    pub mem_total: u64,
    pub mem_used_percent: Num,
    pub max_temp: u32,
    /// milliwatts, summed
    pub power_draw: u32,
    /// milliwatts, summed
    pub power_limit: u32,
}

/// One process's GPU usage across all devices.
#[derive(Clone, Copy, Debug, PartialEq, Eq, Structural)]
pub struct GpuProcStat {
    pub pid: u32,
    /// %
    pub sm_util: u32,
    /// bytes
    pub mem_used: u64,
}

/// What looking for GPUs gave.
pub enum Probe {
    /// The driver's library could not be used: the reason.
    NoLibrary(String),
    /// The number of GPUs could not be had: the reason.
    NoCount(String),
    /// For each GPU its name, where it could be opened.
    Devices(Vec<Option<String>>),
}

/// What a query of one device gave; each figure where it could be had.
#[derive(Clone, Copy, Debug)]
pub struct Reading {
    pub gpu_util: Option<u32>,
    /// Bytes in all and in use.
    pub memory: Option<(u64, u64)>,
    pub temperature: Option<u32>,
    pub power_draw: Option<u32>,
    pub power_limit: Option<u32>,
}

/// A process's memory on a device.
#[derive(Clone, Copy, Debug, PartialEq, Eq, Structural)]
pub struct MemUse {
    pub pid: u32,
    pub bytes: u64,
}

/// A sample of a process's utilisation of a device.
#[derive(Clone, Copy, Debug, PartialEq, Eq, Structural)]
pub struct UtilSample {
    pub pid: u32,
    pub timestamp: u64,
    pub sm_util: u32,
}

/// What the processes on one device use.
pub struct DeviceUse {
    pub memory: Vec<MemUse>,
    pub samples: Vec<UtilSample>,
}

pub struct Gpu {
    pub available: bool,
    pub err: String,
    pub devices: Vec<GpuDevice>,
}

/// A count held to what 32 bits can hold.
pub open spec fn held32(n: nat) -> nat {
    if n > u32::MAX {
        u32::MAX as nat
    } else {
        n
    }
}

fn plus_held32(a: u32, b: u32) -> (r: u32)
    ensures
        r == held32((a + b) as nat),
{
    a.saturating_add(b)
}

/// The devices that could be opened, each under its place in the list.
pub open spec fn opened(names: Seq<Option<String>>) -> Seq<(int, String)>
    decreases names.len(),
{
    if names.len() == 0 {
        seq![]
    } else {
        let before = opened(names.drop_last());
        match names.last() {
            Some(n) => before.push((names.len() - 1, n)),
            None => before,
        }
    }
}

/// A device before its first query.
pub open spec fn blank_device(d: GpuDevice, index: int, name: String) -> bool {
    d.index == index && d.name == name && d.gpu_util == 0 && d.mem_total == 0 && d.mem_used == 0 && d.mem_used_percent
        == Num::spec_zero() && d.temperature == 0 && d.power_draw == 0 && d.power_limit == 0
}

/// A device after a query: what could be had is taken over.
pub open spec fn device_after(d: GpuDevice, r: Reading) -> GpuDevice {
    GpuDevice {
        index: d.index,
        name: d.name,
        gpu_util: match r.gpu_util {
            Some(u) => u,
            None => d.gpu_util,
        },
        mem_total: match r.memory {
            Some(m) => m.0,
            None => d.mem_total,
        },
        mem_used: match r.memory {
            Some(m) => m.1,
            None => d.mem_used,
        },
        mem_used_percent: match r.memory {
            Some(m) => if m.0 > 0 {
                percent_of(m.1 as nat, m.0 as nat)
            } else {
                d.mem_used_percent
            },
            None => d.mem_used_percent,
        },
        temperature: match r.temperature {
            Some(t) => t,
            None => d.temperature,
        },
        power_draw: match r.power_draw {
            Some(p) => p,
            None => d.power_draw,
        },
        power_limit: match r.power_limit {
            Some(p) => p,
            None => d.power_limit,
        },
    }
}

/// Running totals over some devices; the utilisation is their sum.
pub open spec fn totals(d: Seq<GpuDevice>) -> GpuSummary
    decreases d.len(),
{
    if d.len() == 0 {
        GpuSummary {
            count: 0,
            gpu_util: Num::spec_zero(),
            mem_used: 0,
            mem_total: 0,
            mem_used_percent: Num::spec_zero(),
            max_temp: 0,
            power_draw: 0,
            power_limit: 0,
        }
    } else {
        let t = totals(d.drop_last());
        let x = d.last();
        GpuSummary {
            count: 0,
            gpu_util: t.gpu_util.sum(Num::of(x.gpu_util as nat)),
            mem_used: held((t.mem_used + x.mem_used) as nat) as u64,
            mem_total: held((t.mem_total + x.mem_total) as nat) as u64,
            mem_used_percent: Num::spec_zero(),
            max_temp: if t.max_temp < x.temperature {
                x.temperature
            } else {
                t.max_temp
            },
            power_draw: held32((t.power_draw + x.power_draw) as nat) as u32,
            power_limit: held32((t.power_limit + x.power_limit) as nat) as u32,
        }
    }
}

/// The summary of some devices: mean utilisation, summed memory and power, the
/// highest temperature.
pub open spec fn summary_of(d: Seq<GpuDevice>) -> GpuSummary {
    let t = totals(d);
    GpuSummary {
        count: d.len() as usize,
        gpu_util: t.gpu_util.quotient(Num::of(d.len())),
        mem_used_percent: if t.mem_total > 0 {
            percent_of(t.mem_used as nat, t.mem_total as nat)
        } else {
            Num::spec_zero()
        },
        ..t
    }
}

/// The memory of a process in a list, in bytes.
pub open spec fn mem_of(v: Seq<MemUse>, pid: u32) -> nat
    decreases v.len(),
{
    if v.len() == 0 {
        0
    } else if v.last().pid == pid {
        held(mem_of(v.drop_last(), pid) + v.last().bytes as nat)
    } else {
        mem_of(v.drop_last(), pid)
    }
}

/// The newest sample of a process: of equally new ones the first.
pub open spec fn newest(v: Seq<UtilSample>, pid: u32) -> Option<UtilSample>
    decreases v.len(),
{
    if v.len() == 0 {
        None
    } else {
        let before = newest(v.drop_last(), pid);
        if v.last().pid != pid {
            before
        } else {
            match before {
                Some(b) => if v.last().timestamp > b.timestamp {
                    Some(v.last())
                } else {
                    before
                },
                None => Some(v.last()),
            }
        }
    }
}

/// Whether a list holds memory of a process.
pub open spec fn has_mem(v: Seq<MemUse>, pid: u32) -> bool {
    exists|i: int| 0 <= i < v.len() && (#[trigger] v[i]).pid == pid
}

/// A process's memory over some devices, in bytes.
pub open spec fn mem_over(devices: Seq<DeviceUse>, pid: u32) -> nat
    decreases devices.len(),
{
    if devices.len() == 0 {
        0
    } else {
        held(mem_over(devices.drop_last(), pid) + mem_of(devices.last().memory@, pid))
    }
}

/// A process's utilisation over some devices: the newest of each, summed.
pub open spec fn util_over(devices: Seq<DeviceUse>, pid: u32) -> nat
    decreases devices.len(),
{
    if devices.len() == 0 {
        0
    } else {
        match newest(devices.last().samples@, pid) {
            Some(s) => held32(util_over(devices.drop_last(), pid) + s.sm_util as nat),
            None => util_over(devices.drop_last(), pid),
        }
    }
}

/// Whether a list holds a sample of a process.
pub open spec fn has_sample(v: Seq<UtilSample>, pid: u32) -> bool {
    exists|i: int| 0 <= i < v.len() && (#[trigger] v[i]).pid == pid
}

/// Whether a process shows up on a device.
pub open spec fn on_device(d: DeviceUse, pid: u32) -> bool {
    has_mem(d.memory@, pid) || has_sample(d.samples@, pid)
}

/// Whether a process shows up on any of some devices.
pub open spec fn on_any(devices: Seq<DeviceUse>, pid: u32) -> bool {
    exists|k: int| 0 <= k < devices.len() && on_device(#[trigger] devices[k], pid)
}

/// A process's usage over some devices.
pub open spec fn stat_over(devices: Seq<DeviceUse>, pid: u32) -> GpuProcStat {
    GpuProcStat { pid, sm_util: util_over(devices, pid) as u32, mem_used: mem_over(devices, pid) as u64 }
}

/// The entry of a process in a list.
pub open spec fn stat_of(v: Seq<GpuProcStat>, pid: u32) -> Option<GpuProcStat>
    decreases v.len(),
{
    if v.len() == 0 {
        None
    } else if v.last().pid == pid {
        Some(v.last())
    } else {
        stat_of(v.drop_last(), pid)
    }
}

/// The last entry of a process is the one that is found.
pub proof fn lemma_stat_found(v: Seq<GpuProcStat>, pid: u32, i: int)
    requires
        0 <= i < v.len(),
        v[i].pid == pid,
        forall|k: int| i < k < v.len() ==> (#[trigger] v[k]).pid != pid,
    ensures
        stat_of(v, pid) == Some(v[i]),
    decreases v.len(),
{
    if i < v.len() - 1 {
        assert(v[v.len() - 1].pid != pid);
        assert forall|k: int| i < k < v.drop_last().len() implies (#[trigger] v.drop_last()[k]).pid != pid by {
            assert(v.drop_last()[k] == v[k]);
        }
        lemma_stat_found(v.drop_last(), pid, i);
    }
}

/// A process that a list lacks has no entry.
pub proof fn lemma_stat_absent(v: Seq<GpuProcStat>, pid: u32)
    requires
        forall|k: int| 0 <= k < v.len() ==> (#[trigger] v[k]).pid != pid,
    ensures
        stat_of(v, pid) is None,
    decreases v.len(),
{
    if v.len() > 0 {
        assert(v[v.len() - 1].pid != pid);
        assert forall|k: int| 0 <= k < v.drop_last().len() implies (#[trigger] v.drop_last()[k]).pid != pid by {
            assert(v.drop_last()[k] == v[k]);
        }
        lemma_stat_absent(v.drop_last(), pid);
    }
}

/// The entry of a process in a list.
pub fn find_stat(v: &Vec<GpuProcStat>, pid: u32) -> (r: Option<GpuProcStat>)
    ensures
        r == stat_of(v@, pid),
{
    let mut i: usize = v.len();
    proof {
        assert(v@.take(i as int) =~= v@);
    }
    while i > 0
        invariant
            i <= v@.len(),
            stat_of(v@, pid) == stat_of(v@.take(i as int), pid),
        decreases i,
    {
        i = i - 1;
        proof {
            assert(v@.take(i + 1).drop_last() =~= v@.take(i as int));
            assert(v@.take(i + 1).last() == v@[i as int]);
        }
        if v[i].pid == pid {
            return Some(v[i]);
        }
    }
    proof {
        assert(v@.take(0).len() == 0);
    }
    None
}

fn memory_of(v: &Vec<MemUse>, pid: u32) -> (r: u64)
    ensures
        r == mem_of(v@, pid),
{
    let mut sum: u64 = 0;
    let mut i: usize = 0;
    proof {
        assert(v@.take(0).len() == 0);
    }
    while i < v.len()
        invariant
            i <= v@.len(),
            sum == mem_of(v@.take(i as int), pid),
        decreases v@.len() - i,
    {
        proof {
            assert(v@.take(i + 1).drop_last() =~= v@.take(i as int));
        }
        if v[i].pid == pid {
            sum = plus_held(sum, v[i].bytes);
        }
        i = i + 1;
    }
    proof {
        assert(v@.take(v@.len() as int) =~= v@);
    }
    sum
}

fn newest_of(v: &Vec<UtilSample>, pid: u32) -> (r: Option<UtilSample>)
    ensures
        r == newest(v@, pid),
{
    let mut best: Option<UtilSample> = None;
    let mut i: usize = 0;
    proof {
        assert(v@.take(0).len() == 0);
    }
    while i < v.len()
        invariant
            i <= v@.len(),
            best == newest(v@.take(i as int), pid),
        decreases v@.len() - i,
    {
        proof {
            assert(v@.take(i + 1).drop_last() =~= v@.take(i as int));
        }
        let s = v[i];
        if s.pid == pid {
            best = match best {
                Some(b) => if s.timestamp > b.timestamp {
                    Some(s)
                } else {
                    Some(b)
                },
                None => Some(s),
            };
        }
        i = i + 1;
    }
    proof {
        assert(v@.take(v@.len() as int) =~= v@);
    }
    best
}

fn usage_over(devices: &Vec<DeviceUse>, pid: u32) -> (r: GpuProcStat)
    ensures
        r == stat_over(devices@, pid),
        r.sm_util == util_over(devices@, pid),
        r.mem_used == mem_over(devices@, pid),
{
    let mut util: u32 = 0;
    let mut mem: u64 = 0;
    let mut i: usize = 0;
    proof {
        assert(devices@.take(0).len() == 0);
    }
    while i < devices.len()
        invariant
            i <= devices@.len(),
            util == util_over(devices@.take(i as int), pid),
            mem == mem_over(devices@.take(i as int), pid),
        decreases devices@.len() - i,
    {
        proof {
            assert(devices@.take(i + 1).drop_last() =~= devices@.take(i as int));
            assert(devices@.take(i + 1).last() == devices@[i as int]);
        }
        mem = plus_held(mem, memory_of(&devices[i].memory, pid));
        if let Some(s) = newest_of(&devices[i].samples, pid) {
            util = plus_held32(util, s.sm_util);
        }
        i = i + 1;
    }
    proof {
        assert(devices@.take(devices@.len() as int) =~= devices@);
    }
    GpuProcStat { pid, sm_util: util, mem_used: mem }
}

/// Adds a process to a list without repetition.
fn note_pid(out: &mut Vec<u32>, pid: u32)
    requires
        old(out)@.no_duplicates(),
    ensures
        final(out)@.no_duplicates(),
        forall|q: u32| #[trigger] final(out)@.contains(q) <==> old(out)@.contains(q) || q == pid,
{
    let ghost before = out@;
    let mut i: usize = 0;
    while i < out.len()
        invariant
            i <= out@.len(),
            out@ == before,
            before == old(out)@,
            before.no_duplicates(),
            forall|k: int| 0 <= k < i ==> out@[k] != pid,
        decreases out@.len() - i,
    {
        if out[i] == pid {
            return;
        }
        i = i + 1;
    }
    out.push(pid);
    proof {
        assert forall|q: u32| #[trigger] out@.contains(q) <==> before.contains(q) || q == pid by {
            if before.contains(q) {
                let k = choose|k: int| 0 <= k < before.len() && before[k] == q;
                assert(out@[k] == q);
            }
            assert(out@[before.len() as int] == pid);
        }
    }
}

/// Adds the processes of a device to a list without repetition.
fn note_device(out: &mut Vec<u32>, d: &DeviceUse)
    requires
        old(out)@.no_duplicates(),
    ensures
        final(out)@.no_duplicates(),
        forall|q: u32| #[trigger] final(out)@.contains(q) <==> old(out)@.contains(q) || on_device(*d, q),
{
    let ghost before = out@;
    let mut i: usize = 0;
    while i < d.memory.len()
        invariant
            i <= d.memory@.len(),
            out@.no_duplicates(),
            forall|q: u32| #[trigger]
                out@.contains(q) <==> before.contains(q) || exists|k: int|
                    0 <= k < i && (#[trigger] d.memory@[k]).pid == q,
        decreases d.memory@.len() - i,
    {
        note_pid(out, d.memory[i].pid);
        i = i + 1;
    }
    let ghost mid = out@;
    let mut j: usize = 0;
    while j < d.samples.len()
        invariant
            j <= d.samples@.len(),
            out@.no_duplicates(),
            forall|q: u32| #[trigger]
                out@.contains(q) <==> mid.contains(q) || exists|k: int|
                    0 <= k < j && (#[trigger] d.samples@[k]).pid == q,
        decreases d.samples@.len() - j,
    {
        note_pid(out, d.samples[j].pid);
        j = j + 1;
    }
    proof {
        assert forall|q: u32| #[trigger] out@.contains(q) <==> before.contains(q) || on_device(*d, q) by {
            assert(mid.contains(q) <==> before.contains(q) || has_mem(d.memory@, q));
        }
    }
}

proof fn lemma_stat_of_all(v: Seq<GpuProcStat>, pids: Seq<u32>, devices: Seq<DeviceUse>, pid: u32)
    requires
        v.len() == pids.len(),
        forall|i: int| 0 <= i < v.len() ==> #[trigger] v[i] == stat_over(devices, pids[i]),
    ensures
        stat_of(v, pid) == if pids.contains(pid) {
            Some(stat_over(devices, pid))
        } else {
            None
        },
    decreases v.len(),
{
    if v.len() > 0 {
        assert(v[v.len() - 1] == stat_over(devices, pids[v.len() - 1]));
        if v.last().pid != pid {
            lemma_stat_of_all(v.drop_last(), pids.drop_last(), devices, pid);
            if pids.contains(pid) {
                let k = choose|k: int| 0 <= k < pids.len() && pids[k] == pid;
                assert(pids.drop_last()[k] == pid);
            } else {
                assert forall|k: int| 0 <= k < pids.drop_last().len() implies pids.drop_last()[k] != pid by {
                    assert(pids[k] != pid);
                }
            }
        } else {
            assert(pids[v.len() - 1] == pid);
        }
    }
}

/// A name, or nothing where a device could not be opened.
fn copy_name(n: &Option<String>) -> (r: Option<String>)
    ensures
        r == *n,
{
    match n {
        Some(s) => Some(s.clone()),
        None => None,
    }
}

impl Gpu {
    /// The devices that a probe found. It never fails; `available` tells
    /// whether GPU data is present.
    pub fn new(probe: &Probe) -> (r: Gpu)
        ensures
            r.available == (r.devices@.len() > 0),
            match *probe {
                Probe::NoLibrary(e) => r.devices@.len() == 0 && r.err@ == "NVML unavailable: "@ + e@,
                Probe::NoCount(e) => r.devices@.len() == 0 && r.err@ == "cannot query GPU count: "@ + e@,
                Probe::Devices(names) => {
                    &&& r.devices@.len() == opened(names@).len()
                    &&& forall|i: int|
                        0 <= i < r.devices@.len() ==> blank_device(
                            #[trigger] r.devices@[i],
                            opened(names@)[i].0,
                            opened(names@)[i].1,
                        )
                    &&& r.err@ == if names@.len() == 0 {
                        "no NVIDIA GPU detected"@
                    } else if opened(names@).len() == 0 {
                        "no usable NVIDIA GPU"@
                    } else {
                        seq![]
                    }
                },
            },
    {
        match probe {
            Probe::NoLibrary(e) => Gpu {
                available: false,
                err: joined2("NVML unavailable: ", e.as_str()),
                devices: Vec::new(),
            },
            Probe::NoCount(e) => Gpu {
                available: false,
                err: joined2("cannot query GPU count: ", e.as_str()),
                devices: Vec::new(),
            },
            Probe::Devices(names) => {
                let mut devices: Vec<GpuDevice> = Vec::new();
                let mut i: usize = 0;
                proof {
                    assert(names@.take(0).len() == 0);
                }
                while i < names.len()
                    invariant
                        i <= names@.len(),
                        devices@.len() == opened(names@.take(i as int)).len(),
                        forall|k: int|
                            0 <= k < devices@.len() ==> blank_device(
                                #[trigger] devices@[k],
                                opened(names@.take(i as int))[k].0,
                                opened(names@.take(i as int))[k].1,
                            ),
                    decreases names@.len() - i,
                {
                    proof {
                        assert(names@.take(i + 1).drop_last() =~= names@.take(i as int));
                        assert(names@.take(i + 1).last() == names@[i as int]);
                    }
                    if let Some(name) = copy_name(&names[i]) {
                        devices.push(
                            GpuDevice {
                                index: i,
                                name,
                                gpu_util: 0,
                                mem_total: 0,
                                mem_used: 0,
                                mem_used_percent: Num::zero(),
                                temperature: 0,
                                power_draw: 0,
                                power_limit: 0,
                            },
                        );
                    }
                    i = i + 1;
                }
                proof {
                    assert(names@.take(names@.len() as int) =~= names@);
                }
                let err = if names.len() == 0 {
                    "no NVIDIA GPU detected".to_owned()
                } else if devices.len() == 0 {
                    "no usable NVIDIA GPU".to_owned()
                } else {
                    String::new()
                };
                proof {
                    assert(err@ =~= err@);
                    if opened(names@).len() > 0 {
                        assert(err@ =~= seq![]);
                    }
                }
                Gpu { available: devices.len() > 0, err, devices }
            },
        }
    }

    /// A machine without GPU telemetry, and why.
    pub fn absent(reason: &str) -> (r: Gpu)
        ensures
            !r.available,
            r.err@ == reason@,
            r.devices@.len() == 0,
    {
        Gpu { available: false, err: reason.to_owned(), devices: Vec::new() }
    }

    /// This is what stood before with a reading of each GPU taken in.
    pub open spec fn took_in(&self, before: Gpu, readings: Seq<Reading>) -> bool {
        &&& self.available == before.available
        &&& self.err == before.err
        &&& !before.available ==> self.devices == before.devices
        &&& before.available ==> self.devices@ == Seq::new(
            before.devices@.len(),
            |i: int|
                if i < readings.len() {
                    device_after(before.devices@[i], readings[i])
                } else {
                    before.devices@[i]
                },
        )
    }

    /// Takes over what a query of each device gave. A device without a reading
    /// stays as it was, and so do all where there is no GPU data.
    pub fn update(&mut self, readings: &Vec<Reading>)
        ensures
            final(self).took_in(*old(self), readings@),
    {
        if !self.available {
            return;
        }
        let ghost before = self.devices@;
        let n: usize = if self.devices.len() < readings.len() {
            self.devices.len()
        } else {
            readings.len()
        };
        let mut i: usize = 0;
        while i < n
            invariant
                i <= n,
                n <= readings@.len(),
                n <= before.len(),
                self.devices@.len() == before.len(),
                self.available == old(self).available,
                self.err == old(self).err,
                forall|k: int| 0 <= k < i ==> #[trigger] self.devices@[k] == device_after(before[k], readings@[k]),
                forall|k: int| i <= k < before.len() ==> self.devices@[k] == before[k],
            decreases n - i,
        {
            let r = readings[i];
            if let Some(u) = r.gpu_util {
                self.devices[i].gpu_util = u;
            }
            if let Some(m) = r.memory {
                self.devices[i].mem_total = m.0;
                self.devices[i].mem_used = m.1;
                if m.0 > 0 {
                    self.devices[i].mem_used_percent = percent(m.1, m.0);
                }
            }
            if let Some(t) = r.temperature {
                self.devices[i].temperature = t;
            }
            if let Some(p) = r.power_draw {
                self.devices[i].power_draw = p;
            }
            if let Some(p) = r.power_limit {
                self.devices[i].power_limit = p;
            }
            i = i + 1;
        }
        proof {
            assert(self.devices@ =~= Seq::new(
                before.len(),
                |i: int|
                    if i < readings@.len() {
                        device_after(before[i], readings@[i])
                    } else {
                        before[i]
                    },
            ));
        }
    }

    /// All devices as one; nothing where there is no GPU data.
    pub open spec fn overall(&self) -> Option<GpuSummary> {
        if !self.available || self.devices@.len() == 0 {
            None
        } else {
            Some(summary_of(self.devices@))
        }
    }

    /// Reduces all devices to one summary; `None` when there is no GPU data.
    pub fn summary(&self) -> (r: Option<GpuSummary>)
        ensures
            r == self.overall(),
    {
        if !self.available || self.devices.len() == 0 {
            return None;
        }
        let n: usize = self.devices.len();
        let mut s = GpuSummary {
            count: 0,
            gpu_util: Num::zero(),
            mem_used: 0,
            mem_total: 0,
            mem_used_percent: Num::zero(),
            max_temp: 0,
            power_draw: 0,
            power_limit: 0,
        };
        let mut i: usize = 0;
        proof {
            assert(self.devices@.take(0).len() == 0);
        }
        while i < n
            invariant
                i <= n,
                n == self.devices@.len(),
                s == totals(self.devices@.take(i as int)),
            decreases n - i,
        {
            proof {
                assert(self.devices@.take(i + 1).drop_last() =~= self.devices@.take(i as int));
                assert(self.devices@.take(i + 1).last() == self.devices@[i as int]);
            }
            let d = &self.devices[i];
            s = GpuSummary {
                count: 0,
                gpu_util: s.gpu_util.plus(Num::from_u64(d.gpu_util as u64)),
                mem_used: plus_held(s.mem_used, d.mem_used),
                mem_total: plus_held(s.mem_total, d.mem_total),
                mem_used_percent: Num::zero(),
                max_temp: if s.max_temp < d.temperature {
                    d.temperature
                } else {
                    s.max_temp
                },
                power_draw: plus_held32(s.power_draw, d.power_draw),
                power_limit: plus_held32(s.power_limit, d.power_limit),
            };
            i = i + 1;
        }
        proof {
            assert(self.devices@.take(n as int) =~= self.devices@);
        }
        s.count = n;
        s.gpu_util = s.gpu_util.over(Num::from_u64(n as u64));
        if s.mem_total > 0 {
            s.mem_used_percent = percent(s.mem_used, s.mem_total);
        }
        Some(s)
    }

    /// These entries tell of each process what it does on the GPUs.
    pub open spec fn attributes(&self, devices: Seq<DeviceUse>, stats: Seq<GpuProcStat>) -> bool {
        forall|pid: u32|
            #[trigger] stat_of(stats, pid) == if self.available && on_any(devices, pid) {
                Some(stat_over(devices, pid))
            } else {
                None
            }
    }

    /// GPU utilisation and memory by process, over all devices. Entries
    /// degrade to memory only (or are absent) where the driver withholds the
    /// data.
    pub fn process_stats(&self, devices: &Vec<DeviceUse>) -> (r: Vec<GpuProcStat>)
        ensures
            self.attributes(devices@, r@),
            forall|i: int, j: int| 0 <= i < j < r@.len() ==> (#[trigger] r@[i]).pid != (#[trigger] r@[j]).pid,
    {
        let mut out: Vec<GpuProcStat> = Vec::new();
        if !self.available {
            return out;
        }
        let mut pids: Vec<u32> = Vec::new();
        let mut i: usize = 0;
        while i < devices.len()
            invariant
                i <= devices@.len(),
                pids@.no_duplicates(),
                forall|q: u32| #[trigger]
                    pids@.contains(q) <==> exists|k: int| 0 <= k < i && on_device(#[trigger] devices@[k], q),
            decreases devices@.len() - i,
        {
            note_device(&mut pids, &devices[i]);
            i = i + 1;
        }
        let mut k: usize = 0;
        while k < pids.len()
            invariant
                k <= pids@.len(),
                out@.len() == k,
                forall|j: int| 0 <= j < k ==> #[trigger] out@[j] == stat_over(devices@, pids@[j]),
            decreases pids@.len() - k,
        {
            out.push(usage_over(devices, pids[k]));
            k = k + 1;
        }
        proof {
            assert forall|pid: u32|
                #[trigger] stat_of(out@, pid) == if on_any(devices@, pid) {
                    Some(stat_over(devices@, pid))
                } else {
                    None
                } by {
                lemma_stat_of_all(out@, pids@, devices@, pid);
                assert(pids@.contains(pid) <==> on_any(devices@, pid));
            }
        }
        out
    }
}

/// The start of the window that utilisation samples are asked for: two seconds
/// before now, in microseconds.
pub fn sample_window(now_micros: u64) -> (r: u64)
    ensures
        r == if now_micros >= 2_000_000 {
            (now_micros - 2_000_000) as int
        } else {
            0
        },
{
    now_micros.saturating_sub(2_000_000)
}

/// What some counts add up to.
pub open spec fn added(v: Seq<nat>) -> nat
    decreases v.len(),
{
    if v.len() == 0 {
        0
    } else {
        added(v.drop_last()) + v.last()
    }
}

/// The utilisation of each device.
pub open spec fn utilisations(d: Seq<GpuDevice>) -> Seq<nat> {
    Seq::new(d.len(), |i: int| d[i].gpu_util as nat)
}

/// The memory in use on each device.
pub open spec fn used_bytes(d: Seq<GpuDevice>) -> Seq<nat> {
    Seq::new(d.len(), |i: int| d[i].mem_used as nat)
}

/// The memory of each device.
pub open spec fn total_bytes(d: Seq<GpuDevice>) -> Seq<nat> {
    Seq::new(d.len(), |i: int| d[i].mem_total as nat)
}

/// The power that each device draws.
pub open spec fn draws(d: Seq<GpuDevice>) -> Seq<nat> {
    Seq::new(d.len(), |i: int| d[i].power_draw as nat)
}

/// The power limit of each device.
pub open spec fn limits(d: Seq<GpuDevice>) -> Seq<nat> {
    Seq::new(d.len(), |i: int| d[i].power_limit as nat)
}

/// A count, or the most that can be told of it.
pub open spec fn at_most(n: nat, top: nat) -> nat {
    if n > top {
        top
    } else {
        n
    }
}

proof fn lemma_totals(d: Seq<GpuDevice>)
    requires
        d.len() <= 0x10_0000,
    ensures
        added(utilisations(d)) <= d.len() * 0xffff_ffff,
        totals(d).gpu_util == Num::of(added(utilisations(d))),
        totals(d).mem_used == at_most(added(used_bytes(d)), u64::MAX as nat),
        totals(d).mem_total == at_most(added(total_bytes(d)), u64::MAX as nat),
        totals(d).power_draw == at_most(added(draws(d)), u32::MAX as nat),
        totals(d).power_limit == at_most(added(limits(d)), u32::MAX as nat),
        forall|i: int| 0 <= i < d.len() ==> (#[trigger] d[i]).temperature <= totals(d).max_temp,
        totals(d).max_temp == 0 || exists|i: int|
            0 <= i < d.len() && (#[trigger] d[i]).temperature == totals(d).max_temp,
    decreases d.len(),
{
    if d.len() == 0 {
        lemma_zero_stays(Num::spec_zero());
    } else {
        let e = d.drop_last();
        lemma_totals(e);
        assert(utilisations(d).drop_last() =~= utilisations(e));
        assert(used_bytes(d).drop_last() =~= used_bytes(e));
        assert(total_bytes(d).drop_last() =~= total_bytes(e));
        assert(draws(d).drop_last() =~= draws(e));
        assert(limits(d).drop_last() =~= limits(e));
        lemma_of_arith(added(utilisations(e)), d.last().gpu_util as nat);
        assert forall|i: int| 0 <= i < d.len() implies (#[trigger] d[i]).temperature <= totals(d).max_temp by {
            if i < e.len() {
                assert(e[i] == d[i]);
            }
        }
        if totals(e).max_temp < d.last().temperature {
            assert(d[d.len() - 1].temperature == totals(d).max_temp);
        } else if totals(d).max_temp != 0 {
            let i = choose|i: int| 0 <= i < e.len() && (#[trigger] e[i]).temperature == totals(e).max_temp;
            assert(d[i].temperature == totals(d).max_temp);
        }
    }
}

proof fn lemma_mean(total: nat, n: nat)
    requires
        total <= 0x10_0000 * 0xffff_ffff,
        0 < n <= 0x10_0000,
    ensures
        Num::of(total).quotient(Num::of(n)).finite(),
        within(Num::of(total).quotient(Num::of(n)).value(), total as real / n as real, 4 as real),
{
    lemma_of_value(n);
    lemma_value_units(Num::of(n));
    let x = total as real / n as real;
    if total == 0 {
        lemma_zero_stays(Num::of(n));
        lemma_value_units(Num::spec_zero());
        assert(x == 0 as real && x * (4 as real * grain()) == 0 as real) by (nonlinear_arith)
            requires
                x == 0 as real / n as real,
                n > 0,
        ;
    } else {
        lemma_of_within(total);
        lemma_of_within(n);
        lemma_vast();
        assert(x * 0x1_0000_0000_0000_0000 as real >= 1 as real && x <= total as real) by (nonlinear_arith)
            requires
                x == total as real / n as real,
                total >= 1,
                1 <= n <= 0x10_0000,
        {
            assert(x * n as real == total as real);
            assert(x > 0 as real);
            assert(x * n as real >= x);
            assert(x * n as real <= x * 0x1_0000_0000_0000_0000 as real);
        }
        assert(x * 0x1_0000_0000_0000_0000 as real * 0x1_0000_0000_0000_0000 as real >= 1 as real);
        lemma_enough(x);
        lemma_quotient_within(Num::of(total), Num::of(n), total as real, n as real, 0 as real, 0 as real);
    }
}

/// The summary tells the mean of the devices' utilisation, what their memory
/// and their power add up to, how full that memory is, and the temperature of
/// the hottest.
pub proof fn lemma_summary(g: Gpu, s: GpuSummary)
    requires
        g.overall() == Some(s),
        g.devices@.len() <= 0x10_0000,
    ensures
        s.count == g.devices@.len(),
        s.gpu_util.finite(),
        within(
            s.gpu_util.value(),
            added(utilisations(g.devices@)) as real / g.devices@.len() as real,
            4 as real,
        ),
        s.mem_used == at_most(added(used_bytes(g.devices@)), u64::MAX as nat),
        s.mem_total == at_most(added(total_bytes(g.devices@)), u64::MAX as nat),
        s.power_draw == at_most(added(draws(g.devices@)), u32::MAX as nat),
        s.power_limit == at_most(added(limits(g.devices@)), u32::MAX as nat),
        s.mem_total > 0 ==> within(
            s.mem_used_percent.value(),
            s.mem_used as real / s.mem_total as real * 100 as real,
            14 as real,
        ),
        s.mem_total == 0 ==> s.mem_used_percent.value() == 0 as real,
        forall|i: int| 0 <= i < g.devices@.len() ==> (#[trigger] g.devices@[i]).temperature <= s.max_temp,
        s.max_temp == 0 || exists|i: int|
            0 <= i < g.devices@.len() && (#[trigger] g.devices@[i]).temperature == s.max_temp,
{
    let d = g.devices@;
    lemma_totals(d);
    assert(added(utilisations(d)) <= 0x10_0000 * 0xffff_ffff) by (nonlinear_arith)
        requires
            added(utilisations(d)) <= d.len() * 0xffff_ffff,
            d.len() <= 0x10_0000,
    ;
    lemma_mean(added(utilisations(d)), d.len());
    lemma_value_units(Num::spec_zero());
    if s.mem_total > 0 {
        lemma_percent_value(s.mem_used as nat, s.mem_total as nat);
    }
}

/// A query's figures are taken over where they could be had, and what could
/// not be had stays as it was.
pub proof fn lemma_reading_taken(before: Gpu, after: Gpu, readings: Seq<Reading>, i: int)
    requires
        after.took_in(before, readings),
        before.available,
        0 <= i < before.devices@.len(),
        i < readings.len(),
    ensures
        after.devices@.len() == before.devices@.len(),
        ({
            let was = before.devices@[i];
            let is = after.devices@[i];
            let r = readings[i];
            &&& is.index == was.index
            &&& is.name == was.name
            &&& r.gpu_util is None ==> is.gpu_util == was.gpu_util
            &&& r.gpu_util is Some ==> r.gpu_util == Some(is.gpu_util)
            &&& r.temperature is None ==> is.temperature == was.temperature
            &&& r.temperature is Some ==> r.temperature == Some(is.temperature)
            &&& r.power_draw is None ==> is.power_draw == was.power_draw
            &&& r.power_draw is Some ==> r.power_draw == Some(is.power_draw)
            &&& r.power_limit is None ==> is.power_limit == was.power_limit
            &&& r.power_limit is Some ==> r.power_limit == Some(is.power_limit)
            &&& r.memory is None ==> is.mem_total == was.mem_total && is.mem_used == was.mem_used
                && is.mem_used_percent == was.mem_used_percent
            &&& r.memory is Some ==> r.memory == Some((is.mem_total, is.mem_used))
            &&& r.memory is Some && is.mem_total > 0 ==> within(
                is.mem_used_percent.value(),
                is.mem_used as real / is.mem_total as real * 100 as real,
                14 as real,
            )
        }),
{
    let is = after.devices@[i];
    if is.mem_total > 0 {
        lemma_percent_value(is.mem_used as nat, is.mem_total as nat);
    }
}

/// The devices that could be opened are kept, in turn, each under its own
/// number.
pub proof fn lemma_opened(names: Seq<Option<String>>)
    ensures
        forall|i: int|
            #![trigger opened(names)[i]]
            0 <= i < opened(names).len() ==> 0 <= opened(names)[i].0 < names.len() && names[opened(names)[i].0]
                == Some(opened(names)[i].1),
        forall|i: int, j: int|
            0 <= i < j < opened(names).len() ==> (#[trigger] opened(names)[i]).0 < (#[trigger] opened(names)[j]).0,
        forall|k: int|
            0 <= k < names.len() && (#[trigger] names[k]) is Some ==> exists|i: int|
                0 <= i < opened(names).len() && (#[trigger] opened(names)[i]).0 == k,
    decreases names.len(),
{
    if names.len() > 0 {
        let e = names.drop_last();
        lemma_opened(e);
        assert forall|i: int| #![trigger opened(names)[i]] 0 <= i < opened(names).len() implies 0 <= opened(names)[i].0
            < names.len() && names[opened(names)[i].0] == Some(opened(names)[i].1) by {
            if i < opened(e).len() {
                assert(opened(names)[i] == opened(e)[i]);
            }
        }
        assert forall|i: int, j: int| 0 <= i < j < opened(names).len() implies (#[trigger] opened(names)[i]).0 < (
        #[trigger] opened(names)[j]).0 by {
            assert(opened(names)[i] == opened(e)[i]);
            if j < opened(e).len() {
                assert(opened(names)[j] == opened(e)[j]);
            }
        }
        assert forall|k: int| 0 <= k < names.len() && (#[trigger] names[k]) is Some implies exists|i: int|
            0 <= i < opened(names).len() && (#[trigger] opened(names)[i]).0 == k by {
            if k < e.len() {
                assert(e[k] is Some);
                let i = choose|i: int| 0 <= i < opened(e).len() && (#[trigger] opened(e)[i]).0 == k;
                assert(opened(names)[i].0 == k);
            } else {
                assert(opened(names)[opened(e).len() as int].0 == k);
            }
        }
    }
}

/// What counts of a process's samples on a device is the newest; of equally new
/// ones the first.
pub proof fn lemma_newest(v: Seq<UtilSample>, pid: u32)
    ensures
        match newest(v, pid) {
            Some(s) => s.pid == pid && exists|i: int|
                #![trigger v[i]]
                0 <= i < v.len() && v[i] == s && (forall|j: int|
                    0 <= j < v.len() && (#[trigger] v[j]).pid == pid ==> v[j].timestamp <= s.timestamp) && (forall|j: int|
                    0 <= j < i && (#[trigger] v[j]).pid == pid ==> v[j].timestamp < s.timestamp),
            None => forall|i: int| 0 <= i < v.len() ==> (#[trigger] v[i]).pid != pid,
        },
    decreases v.len(),
{
    if v.len() > 0 {
        let e = v.drop_last();
        lemma_newest(e, pid);
        let n = v.len() - 1;
        assert(forall|j: int| 0 <= j < n ==> v[j] == #[trigger] e[j]);
        assert(forall|j: int| 0 <= j < n ==> #[trigger] v[j] == e[j]);
        match newest(e, pid) {
            Some(s) => {
                let i = choose|i: int|
                    #![trigger e[i]]
                    0 <= i < e.len() && e[i] == s && (forall|j: int|
                        0 <= j < e.len() && (#[trigger] e[j]).pid == pid ==> e[j].timestamp <= s.timestamp) && (forall|
                        j: int,
                    |
                        0 <= j < i && (#[trigger] e[j]).pid == pid ==> e[j].timestamp < s.timestamp);
                assert(v[i] == s);
                assert(v[n] == v.last());
            },
            None => {
                assert(v[n] == v.last());
            },
        }
    }
}

/// What each entry of a list holds for a process.
pub open spec fn bytes_for(v: Seq<MemUse>, pid: u32) -> Seq<nat> {
    Seq::new(
        v.len(),
        |i: int|
            if v[i].pid == pid {
                v[i].bytes as nat
            } else {
                0
            },
    )
}

/// A process's memory on each device.
pub open spec fn bytes_on(devices: Seq<DeviceUse>, pid: u32) -> Seq<nat> {
    Seq::new(devices.len(), |k: int| added(bytes_for(devices[k].memory@, pid)))
}

/// A process's newest utilisation of each device.
pub open spec fn utils_on(devices: Seq<DeviceUse>, pid: u32) -> Seq<nat> {
    Seq::new(
        devices.len(),
        |k: int|
            match newest(devices[k].samples@, pid) {
                Some(s) => s.sm_util as nat,
                None => 0,
            },
    )
}

proof fn lemma_bytes_for(v: Seq<MemUse>, pid: u32)
    ensures
        mem_of(v, pid) == at_most(added(bytes_for(v, pid)), u64::MAX as nat),
    decreases v.len(),
{
    if v.len() > 0 {
        lemma_bytes_for(v.drop_last(), pid);
        assert(bytes_for(v, pid).drop_last() =~= bytes_for(v.drop_last(), pid));
    }
}

proof fn lemma_over_devices(devices: Seq<DeviceUse>, pid: u32)
    ensures
        mem_over(devices, pid) == at_most(added(bytes_on(devices, pid)), u64::MAX as nat),
        util_over(devices, pid) == at_most(added(utils_on(devices, pid)), u32::MAX as nat),
    decreases devices.len(),
{
    if devices.len() > 0 {
        let e = devices.drop_last();
        lemma_over_devices(e, pid);
        lemma_bytes_for(devices.last().memory@, pid);
        assert(bytes_on(devices, pid).drop_last() =~= bytes_on(e, pid));
        assert(utils_on(devices, pid).drop_last() =~= utils_on(e, pid));
    }
}

/// A process's entry tells what its memory adds up to over all devices, and its
/// newest utilisation of each, added up. A process that shows up on none has
/// no entry.
pub proof fn lemma_process_usage(g: Gpu, devices: Seq<DeviceUse>, stats: Seq<GpuProcStat>, pid: u32)
    requires
        g.attributes(devices, stats),
        g.available,
    ensures
        match stat_of(stats, pid) {
            Some(s) => {
                &&& s.pid == pid
                &&& s.mem_used == at_most(added(bytes_on(devices, pid)), u64::MAX as nat)
                &&& s.sm_util == at_most(added(utils_on(devices, pid)), u32::MAX as nat)
            },
            None => forall|k: int, i: int|
                #![trigger devices[k].memory@[i]]
                0 <= k < devices.len() && 0 <= i < devices[k].memory@.len() ==> devices[k].memory@[i].pid != pid,
        },
        forall|k: int, i: int|
            #![trigger devices[k].samples@[i]]
            0 <= k < devices.len() && 0 <= i < devices[k].samples@.len() && devices[k].samples@[i].pid == pid
                ==> stat_of(stats, pid) is Some,
{
    lemma_over_devices(devices, pid);
    if stat_of(stats, pid) is None {
        assert forall|k: int, i: int|
            #![trigger devices[k].memory@[i]]
            0 <= k < devices.len() && 0 <= i < devices[k].memory@.len() implies devices[k].memory@[i].pid != pid by {
            if devices[k].memory@[i].pid == pid {
                assert(has_mem(devices[k].memory@, pid));
                assert(on_device(devices[k], pid));
            }
        }
    }
    assert forall|k: int, i: int|
        #![trigger devices[k].samples@[i]]
        0 <= k < devices.len() && 0 <= i < devices[k].samples@.len() && devices[k].samples@[i].pid
            == pid implies stat_of(stats, pid) is Some by {
        assert(has_sample(devices[k].samples@, pid));
        assert(on_device(devices[k], pid));
    }
}

} // verus!
