//! Refreshing the dashboard: a sample of every metric source taken in, the
//! lists, histories and hooks brought up to date.

use super::app::App;
use super::controls::{Controls, ControlsModel};
use crate::chars::{group_texts, join, joined, texts};
use crate::hooks::{firing_texts, firings, Firing};
use crate::metrics::cpu::Cpu;
use crate::metrics::disk::{Mount, Usage};
use crate::metrics::gpu::{DeviceUse, GpuProcStat, Reading};
use crate::metrics::memory::{ram_of, swap_of, Memory};
use crate::metrics::network::{Counter, Network};
use crate::metrics::procdisk::{IoSample, ProcDisk};
use crate::metrics::process::{MeasuredSample, ProcSample, Process, Processes};
use crate::metrics::procnet::{ConnSample, Owner, ProcNet, SockSample};
use crate::metrics::system::System;
use crate::num::Num;
use crate::scan::lines;
use vstd::prelude::*;

verus! {

/// A sample of the CPUs.
pub enum CpuReading {
    /// The texts of `/proc/stat`, the cores' frequency files and the
    /// temperature sensors' files.
    Files { stat: String, freqs: Vec<Option<String>>, temps: Vec<Option<String>> },
    /// Utilisation measured elsewhere: of all cores and of each.
    Totals { all: Num, cores: Vec<Num> },
}

/// A sample of the memory.
pub enum MemoryReading {
    Failed,
    /// The text of `/proc/meminfo`.
    Meminfo(String),
    /// Figures measured elsewhere.
    Figures(Memory),
}

/// A sample of the load averages and the uptime.
pub enum SystemReading {
    /// The texts of `/proc/loadavg` and `/proc/uptime`.
    Files { loadavg: Option<String>, uptime: Option<String> },
    /// Figures measured elsewhere.
    Figures { one: Num, five: Num, fifteen: Num, uptime_secs: u64 },
}

/// A sample of the interfaces' counters and when it was taken.
pub struct NetReading {
    pub counters: Option<Vec<Counter>>,
    pub at: u64,
}

/// A sample of the root filesystem and the disks' byte counters, and when it
/// was taken.
pub struct DiskReading {
    pub usage: Option<Usage>,
    pub read: u64,
    pub write: u64,
    pub at: u64,
}

/// A sample of the filesystems and the processes' disk I/O, and when it was
/// taken.
pub struct IoReading {
    pub mounts: Vec<Mount>,
    pub samples: Vec<IoSample>,
    pub restricted: bool,
    pub at: u64,
}

/// A sample of the connections and when it was taken.
pub enum ConnReading {
    /// It takes more rights to see them.
    Denied,
    /// The sockets and who owns them.
    Sockets { socks: Vec<SockSample>, owners: Vec<Owner>, at: u64 },
    /// A report of connections with their owners.
    Report { conns: Vec<ConnSample>, at: u64 },
}

/// A sample of all processes and when it was taken.
pub enum ProcessReading {
    Failed,
    Ticks { samples: Vec<ProcSample>, at: u64 },
    /// Usage measured elsewhere.
    Measured(Vec<MeasuredSample>),
}

/// A sample of every metric source. The views' samples are used only while
/// the view is open.
pub struct Sample {
    pub cpu: CpuReading,
    pub memory: MemoryReading,
    pub net: NetReading,
    pub system: SystemReading,
    pub disk: DiskReading,
    pub io: IoReading,
    pub conns: ConnReading,
    pub gpu: Vec<Reading>,
    pub gpu_use: Vec<DeviceUse>,
    pub procs: ProcessReading,
}

impl CpuReading {
    /// There is an index for each core.
    pub open spec fn fits(&self) -> bool {
        self matches CpuReading::Totals { all, cores } ==> cores@.len() < usize::MAX
    }

    /// A collector that took this in.
    pub open spec fn taken(&self, before: Cpu, after: Cpu) -> bool {
        match *self {
            CpuReading::Files { stat, freqs, temps } => after.took_in(before, stat@, freqs@, temps@),
            CpuReading::Totals { all, cores } => after.took_totals(before, all, cores@),
        }
    }
}

fn take_cpu(cpu: &mut Cpu, r: &CpuReading)
    requires
        old(cpu).wf(),
        r.fits(),
    ensures
        final(cpu).wf(),
        r.taken(*old(cpu), *final(cpu)),
{
    match r {
        CpuReading::Files { stat, freqs, temps } => cpu.update(stat.as_str(), freqs, temps),
        CpuReading::Totals { all, cores } => cpu.update_totals(*all, cores),
    }
}

impl MemoryReading {
    /// A collector that took this in.
    pub open spec fn taken(&self, before: Memory, after: Memory) -> bool {
        match *self {
            MemoryReading::Failed => after == before,
            MemoryReading::Meminfo(t) => after.ram == ram_of(lines(t@)) && after.swap == swap_of(lines(t@)),
            MemoryReading::Figures(m) => after == m,
        }
    }
}

fn take_memory(mem: &mut Memory, r: MemoryReading)
    ensures
        r.taken(*old(mem), *final(mem)),
{
    match r {
        MemoryReading::Failed => {},
        MemoryReading::Meminfo(t) => mem.update(t.as_str()),
        MemoryReading::Figures(m) => {
            *mem = m;
        },
    }
}

impl SystemReading {
    /// A collector that took this in.
    pub open spec fn taken(&self, before: System, after: System) -> bool {
        match *self {
            SystemReading::Files { loadavg, uptime } => after.took_in(before, text_of(loadavg), text_of(uptime)),
            SystemReading::Figures { one, five, fifteen, uptime_secs } => after == (System {
                load1: one,
                load5: five,
                load15: fifteen,
                uptime_secs,
                ..before
            }),
        }
    }
}

/// The text of a file that could be read.
pub open spec fn text_of(t: Option<String>) -> Option<Seq<char>> {
    match t {
        Some(s) => Some(s@),
        None => None,
    }
}

fn take_system(sys: &mut System, r: &SystemReading)
    ensures
        r.taken(*old(sys), *final(sys)),
{
    match r {
        SystemReading::Files { loadavg, uptime } => {
            let l: Option<&str> = match loadavg {
                Some(t) => Some(t.as_str()),
                None => None,
            };
            let u: Option<&str> = match uptime {
                Some(t) => Some(t.as_str()),
                None => None,
            };
            sys.update(l, u);
        },
        SystemReading::Figures { one, five, fifteen, uptime_secs } => sys.set_load(*one, *five, *fifteen, *uptime_secs),
    }
}

impl NetReading {
    /// A collector that took this in.
    pub open spec fn taken(&self, before: Network, after: Network) -> bool {
        match self.counters {
            Some(c) => after.took_in(before, c, self.at),
            None => after == before,
        }
    }
}

impl ConnReading {
    /// A collector that took this in.
    pub open spec fn taken(&self, before: ProcNet, after: ProcNet) -> bool {
        match *self {
            ConnReading::Denied => {
                &&& after.need_root
                &&& after.conns@.len() == 0
                &&& after.prev == before.prev
                &&& after.prev_conns == before.prev_conns
                &&& after.prev_time == before.prev_time
                &&& after.primed == before.primed
            },
            ConnReading::Sockets { socks, owners, at } => after.took_in(before, socks, owners@, at),
            ConnReading::Report { conns, at } => after.took_report(before, conns, at),
        }
    }
}

fn take_conns(net: &mut ProcNet, r: ConnReading)
    ensures
        r.taken(*old(net), *final(net)),
{
    match r {
        ConnReading::Denied => net.update_denied(),
        ConnReading::Sockets { socks, owners, at } => net.update(socks, &owners, at),
        ConnReading::Report { conns, at } => net.update_report(conns, at),
    }
}

impl ProcessReading {
    /// A collector that took this in.
    pub open spec fn taken(&self, before: Processes, after: Processes, mem_total: u64, gpu: Seq<GpuProcStat>) -> bool {
        match *self {
            ProcessReading::Failed => after == before,
            ProcessReading::Ticks { samples, at } => after.took_in(before, samples@, mem_total, gpu, at),
            ProcessReading::Measured(samples) => after.took_measured(before, samples@, mem_total, gpu),
        }
    }
}

fn take_procs(procs: &mut Processes, r: &ProcessReading, mem_total: u64, gpu: &Vec<GpuProcStat>)
    ensures
        r.taken(*old(procs), *final(procs), mem_total, gpu@),
{
    match r {
        ProcessReading::Failed => {},
        ProcessReading::Ticks { samples, at } => procs.update(samples, mem_total, gpu, *at),
        ProcessReading::Measured(samples) => procs.update_measured(samples, mem_total, gpu),
    }
}

impl ControlsModel {
    /// One refresh later the status is gone once its time is up.
    pub open spec fn aged(self) -> ControlsModel {
        if self.status_ttl > 0 {
            ControlsModel {
                status_ttl: (self.status_ttl - 1) as i32,
                status: if self.status_ttl == 1 {
                    ""@
                } else {
                    self.status
                },
                ..self
            }
        } else {
            self
        }
    }

    /// The status line tells what the hooks did and what went wrong.
    pub open spec fn telling(self, notes: Seq<Seq<char>>) -> ControlsModel {
        if notes.len() > 0 {
            ControlsModel { status: joined(notes, "; "@), status_ttl: 5, ..self }
        } else {
            self
        }
    }
}

impl Controls {
    fn age_status(&mut self)
        requires
            old(self).wf(),
        ensures
            final(self).wf(),
            final(self).model() == old(self).model().aged(),
    {
        if self.status_ttl > 0 {
            self.status_ttl = self.status_ttl - 1;
            if self.status_ttl == 0 {
                self.status = "".to_owned();
            }
        }
    }

    fn tell(&mut self, notes: &Vec<String>)
        requires
            old(self).wf(),
        ensures
            final(self).wf(),
            final(self).model() == old(self).model().telling(texts(notes@)),
    {
        if notes.len() > 0 {
            self.status = join(notes, "; ");
            self.status_ttl = 5;
        }
    }

    fn list_procs(&mut self, procs: &Vec<Process>)
        requires
            old(self).wf(),
        ensures
            final(self).wf(),
            final(self).model() == (ControlsModel {
                table: old(self).model().table.with_rows(procs@),
                ..old(self).model()
            }),
    {
        self.table.set_rows(procs);
    }
}

/// What fired, for the status line.
pub open spec fn notes_of(fired: Seq<Firing>) -> Seq<Seq<char>> {
    Seq::new(fired.len(), |i: int| fired[i].note@)
}

impl App {
    /// The collectors of this took in a sample.
    pub open spec fn sampled(self, before: App, s: Sample) -> bool {
        &&& s.cpu.taken(before.cpu, self.cpu)
        &&& s.memory.taken(before.mem, self.mem)
        &&& s.net.taken(before.net, self.net)
        &&& s.system.taken(before.sys, self.sys)
        &&& self.disk == before.disk.after(s.disk.usage, s.disk.read, s.disk.write, s.disk.at)
        &&& self.gpu.took_in(before.gpu, s.gpu@)
        &&& exists|stats: Seq<GpuProcStat>| #[trigger]
            self.gpu.attributes(s.gpu_use@, stats) && s.procs.taken(before.procs, self.procs, self.mem.ram.total, stats)
    }

    /// The views of this took in a sample, where they are open.
    pub open spec fn views_sampled(self, before: App, s: Sample) -> bool {
        &&& if before.controls.show_disks {
            &&& self.mounts == s.io.mounts
            &&& self.procdisk.took_in(before.procdisk, s.io.samples, s.io.restricted, s.io.at)
        } else {
            self.mounts == before.mounts && self.procdisk == before.procdisk
        }
        &&& if before.controls.show_net {
            s.conns.taken(before.procnet, self.procnet)
        } else {
            self.procnet == before.procnet
        }
    }

    /// The lists of this are drawn from the new samples, and the status has
    /// aged.
    pub open spec fn relisted(self, before: App) -> bool {
        let m = before.model();
        self.model() == (ControlsModel {
            table: m.table.with_rows(self.procs.list@),
            disktable: if m.show_disks {
                m.disktable.with_rows(self.procdisk.procs@)
            } else {
                m.disktable
            },
            nettable: if m.show_net {
                m.nettable.with_rows(self.procnet.conns@)
            } else {
                m.nettable
            },
            ..m
        }).aged()
    }

    #[verifier::rlimit(60)]
    fn sample(&mut self, cpu: &CpuReading, memory: MemoryReading, net: NetReading, system: &SystemReading, disk: DiskReading)
        requires
            old(self).wf(),
            cpu.fits(),
        ensures
            final(self).wf(),
            cpu.taken(old(self).cpu, final(self).cpu),
            memory.taken(old(self).mem, final(self).mem),
            net.taken(old(self).net, final(self).net),
            system.taken(old(self).sys, final(self).sys),
            final(self).disk == old(self).disk.after(disk.usage, disk.read, disk.write, disk.at),
            *final(self) == (App {
                cpu: final(self).cpu,
                mem: final(self).mem,
                net: final(self).net,
                sys: final(self).sys,
                disk: final(self).disk,
                ..*old(self)
            }),
    {
        take_cpu(&mut self.cpu, cpu);
        take_memory(&mut self.mem, memory);
        let at: u64 = net.at;
        self.net.update(net.counters, at);
        take_system(&mut self.sys, system);
        self.disk.update(disk.usage, disk.read, disk.write, disk.at);
    }

    #[verifier::rlimit(60)]
    fn sample_views(&mut self, io: IoReading, conns: ConnReading)
        requires
            old(self).wf(),
        ensures
            final(self).wf(),
            if old(self).controls.show_disks {
                &&& final(self).mounts == io.mounts
                &&& final(self).procdisk.took_in(old(self).procdisk, io.samples, io.restricted, io.at)
            } else {
                final(self).mounts == old(self).mounts && final(self).procdisk == old(self).procdisk
            },
            if old(self).controls.show_net {
                conns.taken(old(self).procnet, final(self).procnet)
            } else {
                final(self).procnet == old(self).procnet
            },
            final(self).model() == (ControlsModel {
                disktable: if old(self).controls.show_disks {
                    old(self).model().disktable.with_rows(final(self).procdisk.procs@)
                } else {
                    old(self).model().disktable
                },
                nettable: if old(self).controls.show_net {
                    old(self).model().nettable.with_rows(final(self).procnet.conns@)
                } else {
                    old(self).model().nettable
                },
                ..old(self).model()
            }),
            *final(self) == (App {
                mounts: final(self).mounts,
                procdisk: final(self).procdisk,
                procnet: final(self).procnet,
                controls: final(self).controls,
                ..*old(self)
            }),
    {
        if self.controls.show_disks {
            self.mounts = io.mounts;
            self.procdisk.update(io.samples, io.restricted, io.at);
            self.controls.disktable.set_rows(&self.procdisk.procs);
        }
        if self.controls.show_net {
            take_conns(&mut self.procnet, conns);
            self.controls.nettable.set_rows(&self.procnet.conns);
        }
    }

    #[verifier::rlimit(60)]
    fn sample_procs(&mut self, gpu: &Vec<Reading>, gpu_use: &Vec<DeviceUse>, procs: &ProcessReading)
        requires
            old(self).wf(),
        ensures
            final(self).wf(),
            final(self).gpu.took_in(old(self).gpu, gpu@),
            exists|stats: Seq<GpuProcStat>| #[trigger]
                final(self).gpu.attributes(gpu_use@, stats) && procs.taken(
                    old(self).procs,
                    final(self).procs,
                    old(self).mem.ram.total,
                    stats,
                ),
            final(self).model() == (ControlsModel {
                table: old(self).model().table.with_rows(final(self).procs.list@),
                ..old(self).model()
            }),
            *final(self) == (App {
                gpu: final(self).gpu,
                procs: final(self).procs,
                controls: final(self).controls,
                ..*old(self)
            }),
    {
        self.gpu.update(gpu);
        let stats = self.gpu.process_stats(gpu_use);
        take_procs(&mut self.procs, procs, self.mem.ram.total, &stats);
        proof {
            assert(self.gpu.attributes(gpu_use@, stats@));
        }
        self.controls.list_procs(&self.procs.list);
    }

    /// Refreshes every metric source (unless paused) and runs the hooks: what
    /// they fire is handed back, to be run and then reported with `announce`.
    #[verifier::rlimit(60)]
    pub fn tick(&mut self, s: Sample, now: u64) -> (r: Vec<Firing>)
        requires
            old(self).wf(),
            s.cpu.fits(),
        ensures
            final(self).wf(),
            old(self).controls.paused ==> *final(self) == *old(self) && r@.len() == 0,
            !old(self).controls.paused ==> {
                &&& final(self).sampled(*old(self), s)
                &&& final(self).views_sampled(*old(self), s)
                &&& final(self).relisted(*old(self))
                &&& final(self).histories() == final(self).recorded(old(self).histories())
                &&& firing_texts(r@) == firings(old(self).hooks.rules@, final(self).figures(), now)
                &&& final(self).hooks.rules@.len() == old(self).hooks.rules@.len()
                &&& forall|i: int|
                    0 <= i < old(self).hooks.rules@.len() ==> (#[trigger] final(self).hooks.rules@[i]).same_setup(
                        old(self).hooks.rules@[i],
                    ) && final(self).hooks.rules@[i].arm == old(self).hooks.rules@[i].react(
                        final(self).figures(),
                        now,
                    ).0
                &&& final(self).hooks.errs == old(self).hooks.errs
                &&& final(self).cfg == old(self).cfg
                &&& final(self).width == old(self).width
                &&& final(self).height == old(self).height
            },
    {
        if self.controls.paused {
            return Vec::new();
        }
        self.sample(&s.cpu, s.memory, s.net, &s.system, s.disk);
        self.sample_views(s.io, s.conns);
        self.sample_procs(&s.gpu, &s.gpu_use, &s.procs);
        self.append_histories();
        self.controls.age_status();
        let values = self.hook_values();
        self.hooks.check(&values, now)
    }

    /// Tells in the status line what fired and what went wrong with hooks
    /// since the last time.
    #[verifier::rlimit(60)]
    pub fn announce(&mut self, fired: &Vec<Firing>)
        requires
            old(self).wf(),
        ensures
            final(self).wf(),
            final(self).model() == old(self).model().telling(notes_of(fired@) + texts(old(self).hooks.errs@)),
            final(self).hooks.errs@.len() == 0,
            final(self).hooks.rules == old(self).hooks.rules,
            *final(self) == (App { hooks: final(self).hooks, controls: final(self).controls, ..*old(self) }),
    {
        broadcast use group_texts;

        let mut notes: Vec<String> = Vec::new();
        let mut i: usize = 0;
        proof {
            assert(texts(notes@) =~= notes_of(fired@).take(0));
        }
        while i < fired.len()
            invariant
                i <= fired@.len(),
                texts(notes@) == notes_of(fired@).take(i as int),
                *self == *old(self),
            decreases fired@.len() - i,
        {
            broadcast use group_texts;

            notes.push(fired[i].note.clone());
            proof {
                assert(texts(notes@) =~= notes_of(fired@).take(i + 1));
            }
            i = i + 1;
        }
        let ghost before = notes@;
        let mut errs = self.hooks.errors();
        notes.append(&mut errs);
        proof {
            assert(texts(before) =~= notes_of(fired@));
            assert(texts(notes@) =~= notes_of(fired@) + texts(old(self).hooks.errs@));
        }
        self.controls.tell(&notes);
    }

    /// Notes what went wrong with a hook's command, to be told with the next
    /// announcement.
    pub fn report_error(&mut self, msg: String)
        requires
            old(self).wf(),
        ensures
            final(self).wf(),
            final(self).hooks.rules == old(self).hooks.rules,
            final(self).hooks.errs@ == if old(self).hooks.errs@.len() < crate::hooks::MAX_ERRORS {
                old(self).hooks.errs@.push(msg)
            } else {
                old(self).hooks.errs@
            },
            *final(self) == (App { hooks: final(self).hooks, ..*old(self) }),
    {
        self.hooks.report_error(msg);
    }

    /// Fills the disk view that has just been opened. Rates need a second
    /// sample.
    #[verifier::rlimit(60)]
    pub fn disks_scanned(&mut self, io: IoReading)
        requires
            old(self).wf(),
        ensures
            final(self).wf(),
            final(self).mounts == io.mounts,
            final(self).procdisk.took_in(
                ProcDisk { primed: false, ..old(self).procdisk },
                io.samples,
                io.restricted,
                io.at,
            ),
            final(self).model() == (ControlsModel {
                disktable: old(self).model().disktable.with_rows(final(self).procdisk.procs@),
                ..old(self).model()
            }),
            *final(self) == (App {
                mounts: final(self).mounts,
                procdisk: final(self).procdisk,
                controls: final(self).controls,
                ..*old(self)
            }),
    {
        self.mounts = io.mounts;
        self.procdisk.reset();
        self.procdisk.update(io.samples, io.restricted, io.at);
        self.controls.disktable.set_rows(&self.procdisk.procs);
    }

    /// Fills the network view that has just been opened. Rates need a second
    /// sample.
    #[verifier::rlimit(60)]
    pub fn net_scanned(&mut self, conns: ConnReading)
        requires
            old(self).wf(),
        ensures
            final(self).wf(),
            conns.taken(ProcNet { primed: false, ..old(self).procnet }, final(self).procnet),
            final(self).model() == (ControlsModel {
                nettable: old(self).model().nettable.with_rows(final(self).procnet.conns@),
                ..old(self).model()
            }),
            *final(self) == (App {
                procnet: final(self).procnet,
                controls: final(self).controls,
                ..*old(self)
            }),
    {
        self.procnet.reset();
        take_conns(&mut self.procnet, conns);
        self.controls.nettable.set_rows(&self.procnet.conns);
    }
}

/// A status is told for its time and then gone.
pub proof fn lemma_status_fades(c: ControlsModel, notes: Seq<Seq<char>>)
    requires
        notes.len() > 0,
    ensures
        ({
            let a = c.telling(notes);
            &&& a.status == joined(notes, "; "@)
            &&& a.aged().aged().aged().aged().status == a.status
            &&& a.aged().aged().aged().aged().aged().status == ""@
        }),
{
}

} // verus!
