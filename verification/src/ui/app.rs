//! The state of the dashboard.

use super::controls::{Controls, ControlsModel, Listing, Scans};
use super::disktable::DiskTableModel;
use super::history::{append_history, appended, HISTORY_CAP};
use super::input::{KillSignal, Request};
use super::keys::{KeyEvent, MouseEvent};
use super::nettable::NetTableModel;
use super::proctable::{ProcTable, ProcTableModel};
use crate::config::{Config, State};
use crate::hooks::{lemma_rule_watches_its_metric, reacts_to, Engine, Rule, Values};
use crate::metrics::cpu::Cpu;
use crate::metrics::disk::{Disk, Mount};
use crate::metrics::gpu::{Gpu, GpuSummary};
use crate::metrics::memory::Memory;
use crate::metrics::network::Network;
use crate::metrics::procdisk::ProcDisk;
use crate::metrics::process::Processes;
use crate::metrics::procnet::ProcNet;
use crate::metrics::system::System;
use crate::num::Num;
use vstd::prelude::*;

verus! {

/// The dashboard: the collectors, the preferences, the lists and the
/// histories.
pub struct App {
    pub cpu: Cpu,
    pub mem: Memory,
    pub gpu: Gpu,
    pub net: Network,
    pub sys: System,
    pub disk: Disk,
    pub procs: Processes,
    pub cfg: Config,
    pub mounts: Vec<Mount>,
    pub procnet: ProcNet,
    pub procdisk: ProcDisk,
    pub width: usize,
    pub height: usize,
    pub controls: Controls,
    pub hooks: Engine,
    pub cpu_hist: Vec<Num>,
    pub mem_hist: Vec<Num>,
    pub gpu_hist: Vec<Num>,
    pub rx_hist: Vec<Num>,
    pub tx_hist: Vec<Num>,
    pub disk_r_hist: Vec<Num>,
    pub disk_w_hist: Vec<Num>,
}

/// The histories of the charts.
#[verifier::ext_equal]
pub struct Histories {
    pub cpu: Seq<Num>,
    pub mem: Seq<Num>,
    pub gpu: Seq<Num>,
    pub rx: Seq<Num>,
    pub tx: Seq<Num>,
    pub disk_r: Seq<Num>,
    pub disk_w: Seq<Num>,
}

impl Histories {
    /// No samples yet.
    pub open spec fn none() -> Histories {
        Histories { cpu: seq![], mem: seq![], gpu: seq![], rx: seq![], tx: seq![], disk_r: seq![], disk_w: seq![] }
    }

    /// No history is longer than it may be.
    pub open spec fn capped(self) -> bool {
        self.cpu.len() <= HISTORY_CAP && self.mem.len() <= HISTORY_CAP && self.gpu.len() <= HISTORY_CAP && self.rx.len()
            <= HISTORY_CAP && self.tx.len() <= HISTORY_CAP && self.disk_r.len() <= HISTORY_CAP && self.disk_w.len()
            <= HISTORY_CAP
    }
}

impl App {
    /// What the user sees and steers, as plain values.
    pub open spec fn model(self) -> ControlsModel {
        self.controls.model()
    }

    /// What the lists are drawn from, and which views are configured on.
    pub open spec fn listing(self) -> Listing {
        Listing {
            procs: self.procs.list@,
            io: self.procdisk.procs@,
            conns: self.procnet.conns@,
            disk_on: self.cfg.disk,
            system_on: self.cfg.system,
        }
    }

    /// The histories of the charts.
    pub open spec fn histories(self) -> Histories {
        Histories {
            cpu: self.cpu_hist@,
            mem: self.mem_hist@,
            gpu: self.gpu_hist@,
            rx: self.rx_hist@,
            tx: self.tx_hist@,
            disk_r: self.disk_r_hist@,
            disk_w: self.disk_w_hist@,
        }
    }

    /// The collectors, the tables and the hooks are in order, the histories
    /// capped, and the peak rates are numbers.
    pub open spec fn wf(self) -> bool {
        &&& self.cpu.wf()
        &&& self.controls.wf()
        &&& self.hooks.wf()
        &&& self.histories().capped()
        &&& !self.net.peak_rx.nan()
        &&& !self.net.peak_tx.nan()
    }

    /// The GPUs' figures where that section is on.
    pub open spec fn gpu_figures(self) -> Option<GpuSummary> {
        if self.cfg.gpu {
            self.gpu.overall()
        } else {
            None
        }
    }

    /// Histories with the current figures behind them.
    pub open spec fn recorded(self, h: Histories) -> Histories {
        Histories {
            cpu: appended(h.cpu, self.cpu.overall().total),
            mem: appended(h.mem, self.mem.ram.used_percent),
            gpu: match self.gpu_figures() {
                Some(s) => appended(h.gpu, s.gpu_util),
                None => h.gpu,
            },
            rx: appended(h.rx, self.net.rx_per_sec),
            tx: appended(h.tx, self.net.tx_per_sec),
            disk_r: appended(h.disk_r, self.disk.read_per_sec),
            disk_w: appended(h.disk_w, self.disk.write_per_sec),
        }
    }

    /// The figures that hooks watch; those that the machine does not have are
    /// left out.
    pub open spec fn figures(self) -> Values {
        Values {
            cpu: self.cpu.overall().total,
            mem: self.mem.ram.used_percent,
            disk: self.disk.used_percent,
            cpu_temp: if Num::spec_zero().less(self.cpu.temp) {
                Some(self.cpu.temp)
            } else {
                None
            },
            swap: if self.mem.swaps() {
                Some(self.mem.swap.used_percent)
            } else {
                None
            },
            gpu: match self.gpu.overall() {
                Some(s) => Some(s.gpu_util),
                None => None,
            },
            gpu_mem: match self.gpu.overall() {
                Some(s) => Some(s.mem_used_percent),
                None => None,
            },
        }
    }

    /// A dashboard over primed collectors. `user` is the name of the user
    /// running it, where it is known; `now` the time on the clock of the
    /// collectors.
    #[verifier::rlimit(60)]
    pub fn new(
        cpu: Cpu,
        mem: Memory,
        gpu: Gpu,
        net: Network,
        sys: System,
        disk: Disk,
        procs: Processes,
        cfg: Config,
        show_cores: bool,
        interval_ms: i64,
        user: Option<String>,
        now: u64,
    ) -> (r: App)
        requires
            cpu.wf(),
            !net.peak_rx.nan(),
            !net.peak_tx.nan(),
            cfg.hooks_have_thresholds(),
        ensures
            r.wf(),
            r.model() == (ControlsModel {
                table: (ProcTableModel {
                    show_gpu: cfg.gpu && gpu.available,
                    mine_user: match user {
                        Some(u) => u@,
                        None => seq![],
                    },
                    ..ProcTableModel::empty()
                }).with_rows(procs.list@),
                nettable: NetTableModel::empty(),
                disktable: DiskTableModel::empty(),
                show_cores: show_cores || cfg.cores,
                show_history: cfg.history,
                show_disks: false,
                show_net: false,
                paused: false,
                interval_ms,
                kill_pid: 0,
                kill_name: seq![],
                searching: false,
                status: seq![],
                status_ttl: 0,
                table_top: 0,
                should_quit: false,
            }),
            r.procdisk.procs@.len() == 0,
            r.procnet.conns@.len() == 0,
            r.cpu == cpu && r.mem == mem && r.gpu == gpu && r.net == net && r.sys == sys && r.disk == disk && r.procs == procs
                && r.cfg == cfg,
            r.width == 0 && r.height == 0,
            r.mounts@.len() == 0,
            !r.procdisk.primed && r.procdisk.prev_time == now && !r.procdisk.restricted,
            r.procdisk.prev@.len() == 0,
            !r.procnet.primed && r.procnet.prev_time == now && !r.procnet.need_root,
            r.procnet.prev@.len() == 0 && r.procnet.prev_conns@.len() == 0,
            r.hooks.errs@.len() == 0,
            r.hooks.rules@.len() == cfg.hooks@.len(),
            forall|i: int| 0 <= i < cfg.hooks@.len() ==> Engine::rule_of(#[trigger] r.hooks.rules@[i], cfg.hooks@[i]),
            r.histories() == r.recorded(Histories::none()),
    {
        let mut table = ProcTable::new();
        table.show_gpu = cfg.gpu && gpu.available;
        if let Some(u) = user {
            table.mine_user = u;
        }
        proof {
            assert(table.model() == (ProcTableModel {
                show_gpu: cfg.gpu && gpu.available,
                mine_user: match user {
                    Some(u) => u@,
                    None => seq![],
                },
                ..ProcTableModel::empty()
            }));
        }
        table.set_rows(&procs.list);
        let hooks = Engine::new(&cfg.hooks);
        let controls = Controls::new(table, show_cores || cfg.cores, cfg.history, interval_ms);
        let mut a = App {
            cpu,
            mem,
            gpu,
            net,
            sys,
            disk,
            procs,
            cfg,
            mounts: Vec::new(),
            procnet: ProcNet::new(now),
            procdisk: ProcDisk::new(now),
            width: 0,
            height: 0,
            controls,
            hooks,
            cpu_hist: Vec::new(),
            mem_hist: Vec::new(),
            gpu_hist: Vec::new(),
            rx_hist: Vec::new(),
            tx_hist: Vec::new(),
            disk_r_hist: Vec::new(),
            disk_w_hist: Vec::new(),
        };
        proof {
            assert(a.histories() =~= Histories::none());
        }
        a.append_histories();
        a
    }

    pub fn interval_ms(&self) -> (r: i64)
        ensures
            r == self.model().interval_ms,
    {
        self.controls.interval_ms
    }

    /// Whether the app is to end.
    pub fn should_quit(&self) -> (r: bool)
        ensures
            r == self.model().should_quit,
    {
        self.controls.should_quit
    }

    /// Captures the view preferences worth remembering between runs.
    pub fn state(&self) -> (r: State)
        ensures
            r@ == self.model().preferences(),
    {
        self.controls.state()
    }

    /// Restores saved table preferences and the history toggle.
    #[verifier::rlimit(60)]
    pub fn apply_state(&mut self, s: &State)
        requires
            old(self).wf(),
        ensures
            final(self).wf(),
            final(self).model() == old(self).model().preferring(s@, old(self).procs.list@),
            *final(self) == (App { controls: final(self).controls, ..*old(self) }),
    {
        self.controls.apply_state(s, &self.procs.list);
    }

    /// Processes a key; `should_quit` is set when the app exits. What the key
    /// asks of the outside world is handed back.
    pub fn handle_key(&mut self, ev: KeyEvent) -> (r: Request)
        requires
            old(self).wf(),
        ensures
            final(self).wf(),
            final(self).model() == old(self).model().pressed(ev, old(self).listing()).0,
            r == old(self).model().pressed(ev, old(self).listing()).1,
            *final(self) == (App { controls: final(self).controls, ..*old(self) }),
    {
        let s = Scans {
            procs: &self.procs.list,
            io: &self.procdisk.procs,
            conns: &self.procnet.conns,
            disk_on: self.cfg.disk,
            system_on: self.cfg.system,
        };
        self.controls.handle_key(ev, &s)
    }

    /// Processes what the mouse did.
    pub fn handle_mouse(&mut self, m: MouseEvent)
        requires
            old(self).wf(),
        ensures
            final(self).wf(),
            final(self).model() == old(self).model().pointed(m, old(self).procs.list@),
            *final(self) == (App { controls: final(self).controls, ..*old(self) }),
    {
        self.controls.handle_mouse(m, &self.procs.list);
    }

    /// Reports what became of sending a signal.
    pub fn killed(&mut self, signal: KillSignal, outcome: Result<(), String>)
        requires
            old(self).wf(),
        ensures
            final(self).wf(),
            final(self).model() == old(self).model().after_kill(
                signal,
                match outcome {
                    Ok(_) => None,
                    Err(e) => Some(e@),
                },
            ),
            *final(self) == (App { controls: final(self).controls, ..*old(self) }),
    {
        self.controls.killed(signal, outcome);
    }

    pub(crate) fn hook_values(&self) -> (r: Values)
        ensures
            r == self.figures(),
    {
        let summary = self.gpu.summary();
        Values {
            cpu: self.cpu.aggregate().total,
            mem: self.mem.ram.used_percent,
            disk: self.disk.used_percent,
            cpu_temp: if Num::zero().lt(self.cpu.temp) {
                Some(self.cpu.temp)
            } else {
                None
            },
            swap: if self.mem.has_swap() {
                Some(self.mem.swap.used_percent)
            } else {
                None
            },
            gpu: match summary {
                Some(s) => Some(s.gpu_util),
                None => None,
            },
            gpu_mem: match summary {
                Some(s) => Some(s.mem_used_percent),
                None => None,
            },
        }
    }

    pub(crate) fn gpu_summary(&self) -> (r: Option<GpuSummary>)
        ensures
            r == self.gpu_figures(),
    {
        if !self.cfg.gpu {
            return None;
        }
        self.gpu.summary()
    }

    #[verifier::rlimit(60)]
    pub(crate) fn append_histories(&mut self)
        ensures
            final(self).histories() == old(self).recorded(old(self).histories()),
            old(self).histories().capped() ==> final(self).histories().capped(),
            *final(self) == (App {
                cpu_hist: final(self).cpu_hist,
                mem_hist: final(self).mem_hist,
                gpu_hist: final(self).gpu_hist,
                rx_hist: final(self).rx_hist,
                tx_hist: final(self).tx_hist,
                disk_r_hist: final(self).disk_r_hist,
                disk_w_hist: final(self).disk_w_hist,
                ..*old(self)
            }),
    {
        append_history(&mut self.cpu_hist, self.cpu.aggregate().total);
        append_history(&mut self.mem_hist, self.mem.ram.used_percent);
        append_history(&mut self.rx_hist, self.net.rx_per_sec);
        append_history(&mut self.tx_hist, self.net.tx_per_sec);
        append_history(&mut self.disk_r_hist, self.disk.read_per_sec);
        append_history(&mut self.disk_w_hist, self.disk.write_per_sec);
        if let Some(s) = self.gpu_summary() {
            append_history(&mut self.gpu_hist, s.gpu_util);
        }
        proof {
            assert(self.histories() =~= old(self).recorded(old(self).histories()));
        }
    }

    pub fn set_size(&mut self, w: usize, h: usize)
        ensures
            *final(self) == (App { width: w, height: h, ..*old(self) }),
    {
        self.width = w;
        self.height = h;
    }
}

/// Hooks watch what the dashboard shows: `cpu` the usage of all cores, `mem`
/// the used share of the memory, `disk` that of the root filesystem,
/// `cpu_temp` the temperature where there is one, `swap` the used share of the
/// swap where there is any, `gpu` and `gpu_mem` the figures over all GPUs where
/// there are any.
pub proof fn lemma_hooks_watch_the_dashboard(a: App, r: Rule, now: u64)
    requires
        !r.arm.breached,
        r.hold_for.total() == 0,
    ensures
        r.metric@ == "cpu"@ ==> reacts_to(r, a.figures(), now, Some(a.cpu.overall().total)),
        r.metric@ == "mem"@ ==> reacts_to(r, a.figures(), now, Some(a.mem.ram.used_percent)),
        r.metric@ == "disk"@ ==> reacts_to(r, a.figures(), now, Some(a.disk.used_percent)),
        r.metric@ == "cpu_temp"@ && Num::spec_zero().less(a.cpu.temp) ==> reacts_to(r, a.figures(), now, Some(a.cpu.temp)),
        r.metric@ == "cpu_temp"@ && !Num::spec_zero().less(a.cpu.temp) ==> reacts_to(r, a.figures(), now, None),
        r.metric@ == "swap"@ && a.mem.swap.total > 0 ==> reacts_to(r, a.figures(), now, Some(a.mem.swap.used_percent)),
        r.metric@ == "swap"@ && a.mem.swap.total == 0 ==> reacts_to(r, a.figures(), now, None),
        r.metric@ == "gpu"@ && a.gpu.overall() is Some ==> reacts_to(
            r,
            a.figures(),
            now,
            Some(a.gpu.overall()->0.gpu_util),
        ),
        r.metric@ == "gpu_mem"@ && a.gpu.overall() is Some ==> reacts_to(
            r,
            a.figures(),
            now,
            Some(a.gpu.overall()->0.mem_used_percent),
        ),
        (r.metric@ == "gpu"@ || r.metric@ == "gpu_mem"@) && (!a.gpu.available || a.gpu.devices@.len() == 0) ==> reacts_to(
            r,
            a.figures(),
            now,
            None,
        ),
{
    lemma_rule_watches_its_metric(r, a.figures(), now);
}

/// Each chart's newest sample is the figure that the dashboard shows: the usage
/// of all cores, the used share of the memory, the GPUs' mean utilisation where
/// they are shown, and the rates received, sent, read and written.
pub proof fn lemma_histories_record(a: App, h: Histories)
    ensures
        a.recorded(h).cpu.last() == a.cpu.overall().total,
        a.recorded(h).mem.last() == a.mem.ram.used_percent,
        a.recorded(h).rx.last() == a.net.rx_per_sec,
        a.recorded(h).tx.last() == a.net.tx_per_sec,
        a.recorded(h).disk_r.last() == a.disk.read_per_sec,
        a.recorded(h).disk_w.last() == a.disk.write_per_sec,
        a.cfg.gpu && a.gpu.overall() is Some ==> a.recorded(h).gpu.last() == a.gpu.overall()->0.gpu_util,
        !a.cfg.gpu || a.gpu.overall() is None ==> a.recorded(h).gpu == h.gpu,
        h.cpu.len() < HISTORY_CAP ==> a.recorded(h).cpu.drop_last() == h.cpu,
        h.mem.len() < HISTORY_CAP ==> a.recorded(h).mem.drop_last() == h.mem,
        h.rx.len() < HISTORY_CAP ==> a.recorded(h).rx.drop_last() == h.rx,
        h.tx.len() < HISTORY_CAP ==> a.recorded(h).tx.drop_last() == h.tx,
        h.disk_r.len() < HISTORY_CAP ==> a.recorded(h).disk_r.drop_last() == h.disk_r,
        h.disk_w.len() < HISTORY_CAP ==> a.recorded(h).disk_w.drop_last() == h.disk_w,
{
    assert(h.cpu.push(a.cpu.overall().total).drop_last() =~= h.cpu);
    assert(h.mem.push(a.mem.ram.used_percent).drop_last() =~= h.mem);
    assert(h.rx.push(a.net.rx_per_sec).drop_last() =~= h.rx);
    assert(h.tx.push(a.net.tx_per_sec).drop_last() =~= h.tx);
    assert(h.disk_r.push(a.disk.read_per_sec).drop_last() =~= h.disk_r);
    assert(h.disk_w.push(a.disk.write_per_sec).drop_last() =~= h.disk_w);
}

} // verus!
