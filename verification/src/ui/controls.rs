//! What the user sees and steers: the lists, the toggles, the prompts and the
//! status line.

use super::disktable::{DiskTable, DiskTableModel};
use super::nettable::{NetTable, NetTableModel};
use super::proctable::{lemma_sort_name_reads_back, ProcSort, ProcTable, ProcTableModel};
use crate::config::{Preferences, State};
use crate::metrics::procdisk::ProcIO;
use crate::metrics::process::Process;
use crate::metrics::procnet::ProcConn;
use vstd::prelude::*;

verus! {

/// What the user sees and steers.
pub struct Controls {
    pub table: ProcTable,
    pub nettable: NetTable,
    pub disktable: DiskTable,
    pub show_cores: bool,
    pub show_history: bool,
    pub show_disks: bool,
    pub show_net: bool,
    pub paused: bool,
    pub interval_ms: i64,
    /// The process that the kill prompt asks about; 0 without one.
    pub kill_pid: i32,
    pub kill_name: String,
    pub searching: bool,
    pub status: String,
    /// For how many more refreshes the status is shown.
    pub status_ttl: i32,
    /// The screen line of the first process; 0 where none is shown.
    pub table_top: usize,
    pub should_quit: bool,
}

/// What the user sees and steers, as plain values.
pub struct ControlsModel {
    pub table: ProcTableModel,
    pub nettable: NetTableModel,
    pub disktable: DiskTableModel,
    pub show_cores: bool,
    pub show_history: bool,
    pub show_disks: bool,
    pub show_net: bool,
    pub paused: bool,
    pub interval_ms: i64,
    pub kill_pid: i32,
    pub kill_name: Seq<char>,
    pub searching: bool,
    pub status: Seq<char>,
    pub status_ttl: i32,
    pub table_top: nat,
    pub should_quit: bool,
}

/// What the lists are drawn from, and which views are configured on.
pub struct Scans<'a> {
    pub procs: &'a Vec<Process>,
    pub io: &'a Vec<ProcIO>,
    pub conns: &'a Vec<ProcConn>,
    pub disk_on: bool,
    pub system_on: bool,
}

/// What the lists are drawn from, as plain values.
pub struct Listing {
    pub procs: Seq<Process>,
    pub io: Seq<ProcIO>,
    pub conns: Seq<ProcConn>,
    pub disk_on: bool,
    pub system_on: bool,
}

impl<'a> View for Scans<'a> {
    type V = Listing;

    open spec fn view(&self) -> Listing {
        Listing {
            procs: self.procs@,
            io: self.io@,
            conns: self.conns@,
            disk_on: self.disk_on,
            system_on: self.system_on,
        }
    }
}

/// A refresh interval held to the supported range, in milliseconds.
pub open spec fn interval_within(ms: int) -> int {
    if ms < 100 {
        100
    } else if ms > 5000 {
        5000
    } else {
        ms
    }
}

/// Bounds a refresh interval to the supported 100-5000ms range.
pub fn clamp_interval(ms: i64) -> (r: i64)
    ensures
        r == interval_within(ms as int),
        100 <= r <= 5000,
{
    if ms < 100 {
        100
    } else if ms > 5000 {
        5000
    } else {
        ms
    }
}

impl ControlsModel {
    /// The view preferences worth remembering between runs.
    pub open spec fn preferences(self) -> Preferences {
        Preferences {
            sort: self.table.sort_by.name(),
            sort_asc: self.table.asc,
            tree: self.table.tree,
            mine: self.table.mine_only,
            cores: self.show_cores,
            history: self.show_history,
            interval: self.interval_ms,
        }
    }

    /// The table's preferences and the history toggle restored.
    pub open spec fn preferring(self, p: Preferences, procs: Seq<Process>) -> ControlsModel {
        ControlsModel {
            table: (ProcTableModel {
                sort_by: ProcSort::named(p.sort),
                asc: p.sort_asc,
                tree: p.tree,
                mine_only: p.mine,
                ..self.table
            }).with_rows(procs),
            show_history: p.history,
            ..self
        }
    }
}

/// What was captured comes back: the table's order, tree and filter, and the
/// history toggle.
pub proof fn lemma_preferences_restored(a: ControlsModel, b: ControlsModel, procs: Seq<Process>)
    ensures
        ({
            let r = b.preferring(a.preferences(), procs);
            &&& r.table.sort_by == a.table.sort_by
            &&& r.table.asc == a.table.asc
            &&& r.table.tree == a.table.tree
            &&& r.table.mine_only == a.table.mine_only
            &&& r.show_history == a.show_history
            &&& b.show_cores == a.show_cores && b.interval_ms == a.interval_ms ==> r.preferences() == a.preferences()
        }),
{
    lemma_sort_name_reads_back(a.table.sort_by);
    reveal(ProcTableModel::with_rows);
}

impl Controls {
    /// What the user sees and steers, as plain values.
    pub open spec fn model(self) -> ControlsModel {
        ControlsModel {
            table: self.table.model(),
            nettable: self.nettable.model(),
            disktable: self.disktable.model(),
            show_cores: self.show_cores,
            show_history: self.show_history,
            show_disks: self.show_disks,
            show_net: self.show_net,
            paused: self.paused,
            interval_ms: self.interval_ms,
            kill_pid: self.kill_pid,
            kill_name: self.kill_name@,
            searching: self.searching,
            status: self.status@,
            status_ttl: self.status_ttl,
            table_top: self.table_top as nat,
            should_quit: self.should_quit,
        }
    }

    /// The tables are in order.
    pub open spec fn wf(self) -> bool {
        &&& self.table.model().wf()
        &&& self.nettable.model().wf()
        &&& self.disktable.model().wf()
    }

    /// The dashboard alone, nothing typed and nothing asked.
    pub fn new(table: ProcTable, show_cores: bool, show_history: bool, interval_ms: i64) -> (r: Controls)
        ensures
            r.table == table,
            r.model() == (ControlsModel {
                table: table.model(),
                nettable: NetTableModel::empty(),
                disktable: DiskTableModel::empty(),
                show_cores,
                show_history,
                show_disks: false,
                show_net: false,
                paused: false,
                interval_ms,
                kill_pid: 0,
                kill_name: seq![],
                searching: false,
                status: seq![],
                status_ttl: 0,
                table_top: 0,
                should_quit: false,
            }),
    {
        let c = Controls {
            table,
            nettable: NetTable::new(),
            disktable: DiskTable::new(),
            show_cores,
            show_history,
            show_disks: false,
            show_net: false,
            paused: false,
            interval_ms,
            kill_pid: 0,
            kill_name: String::new(),
            searching: false,
            status: String::new(),
            status_ttl: 0,
            table_top: 0,
            should_quit: false,
        };
        proof {
            assert(c.kill_name@ =~= seq![]);
            assert(c.status@ =~= seq![]);
        }
        c
    }

    /// Captures the view preferences worth remembering between runs.
    pub fn state(&self) -> (r: State)
        ensures
            r@ == self.model().preferences(),
    {
        State {
            sort: self.table.sort_by.as_str().to_owned(),
            sort_asc: self.table.asc,
            tree: self.table.tree,
            mine: self.table.mine_only,
            cores: self.show_cores,
            history: self.show_history,
            interval: self.interval_ms,
        }
    }

    /// Restores saved table preferences and the history toggle.
    pub fn apply_state(&mut self, s: &State, procs: &Vec<Process>)
        requires
            old(self).wf(),
        ensures
            final(self).wf(),
            final(self).model() == old(self).model().preferring(s@, procs@),
    {
        self.show_history = s.history;
        self.table.prefer(ProcSort::parse(s.sort.as_str()), s.sort_asc, s.tree, s.mine);
        self.table.set_rows(procs);
    }
}

} // verus!
