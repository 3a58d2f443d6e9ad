//! What keys and the mouse do.

use super::controls::{clamp_interval, interval_within, Controls, ControlsModel, Listing, Scans};
use super::disktable::DiskSort;
use super::list::Travel;
use super::keys::{key_string, KeyCode, KeyEvent, MouseEvent, MouseEventKind};
use super::nettable::NetSort;
use super::proctable::{ProcSort, ProcTableModel};
use super::screen::PAD_X;
use crate::chars::{chars_of, same, signed_numeral, signed_numeral_of, string_of};
use crate::metrics::procdisk::ProcIO;
use crate::metrics::process::Process;
use crate::metrics::procnet::ProcConn;
use vstd::prelude::*;
use vstd::string::StringExecFns;

verus! {

/// A signal that ends a process.
#[derive(Clone, Copy, Debug, PartialEq, Eq, Structural)]
pub enum KillSignal {
    Term,
    Kill,
}

impl KillSignal {
    /// The name of the signal.
    pub open spec fn spelled(self) -> Seq<char> {
        match self {
            KillSignal::Term => "SIGTERM"@,
            KillSignal::Kill => "SIGKILL"@,
        }
    }

    pub fn name(self) -> (r: &'static str)
        ensures
            r@ == self.spelled(),
    {
        match self {
            KillSignal::Term => "SIGTERM",
            KillSignal::Kill => "SIGKILL",
        }
    }
}

/// What a key asks of the outside world.
#[derive(Clone, Copy, Debug, PartialEq, Eq, Structural)]
pub enum Request {
    Nothing,
    /// Send a process a signal and report back.
    Kill { pid: i32, signal: KillSignal },
    /// Scan the filesystems and the processes' disk I/O.
    ScanDisks,
    /// Scan the connections.
    ScanNet,
}

/// Whether a key has one of two names.
pub open spec fn either(k: Seq<char>, a: Seq<char>, b: Seq<char>) -> bool {
    k == a || k == b
}

fn is_either(k: &str, a: &str, b: &str) -> (r: bool)
    ensures
        r == either(k@, a@, b@),
{
    same(k, a) || same(k, b)
}

/// The way a key moves the selection while a search is typed, where letters
/// are text.
#[verifier::opaque]
pub open spec fn prompt_travel(k: Seq<char>) -> Option<Travel> {
    if k == "down"@ {
        Some(Travel::Down)
    } else if k == "up"@ {
        Some(Travel::Up)
    } else if k == "pgdown"@ {
        Some(Travel::PageDown)
    } else if k == "pgup"@ {
        Some(Travel::PageUp)
    } else {
        None
    }
}

fn read_prompt_travel(k: &str) -> (r: Option<Travel>)
    ensures
        r == prompt_travel(k@),
{
    proof {
        reveal(prompt_travel);
    }
    if same(k, "down") {
        Some(Travel::Down)
    } else if same(k, "up") {
        Some(Travel::Up)
    } else if same(k, "pgdown") {
        Some(Travel::PageDown)
    } else if same(k, "pgup") {
        Some(Travel::PageUp)
    } else {
        None
    }
}

/// The way a key moves the selection.
#[verifier::opaque]
pub open spec fn travel(k: Seq<char>) -> Option<Travel> {
    if k == "j"@ {
        Some(Travel::Down)
    } else if k == "k"@ {
        Some(Travel::Up)
    } else if k == "home"@ {
        Some(Travel::Home)
    } else if k == "end"@ {
        Some(Travel::End)
    } else {
        prompt_travel(k)
    }
}

fn read_travel(k: &str) -> (r: Option<Travel>)
    ensures
        r == travel(k@),
{
    proof {
        reveal(travel);
    }
    if same(k, "j") {
        Some(Travel::Down)
    } else if same(k, "k") {
        Some(Travel::Up)
    } else if same(k, "home") {
        Some(Travel::Home)
    } else if same(k, "end") {
        Some(Travel::End)
    } else {
        read_prompt_travel(k)
    }
}

/// An answer to the kill prompt.
#[derive(Clone, Copy, Debug, PartialEq, Eq, Structural)]
pub enum Answer {
    Send(KillSignal),
    Cancel,
    Unclear,
}

/// What a key answers to the kill prompt.
#[verifier::opaque]
pub open spec fn answer(k: Seq<char>) -> Answer {
    if either(k, "t"@, "T"@) || k == "enter"@ {
        Answer::Send(KillSignal::Term)
    } else if either(k, "k"@, "K"@) {
        Answer::Send(KillSignal::Kill)
    } else if k == "esc"@ || either(k, "n"@, "N"@) {
        Answer::Cancel
    } else {
        Answer::Unclear
    }
}

fn read_answer(k: &str) -> (r: Answer)
    ensures
        r == answer(k@),
{
    proof {
        reveal(answer);
    }
    if is_either(k, "t", "T") || same(k, "enter") {
        Answer::Send(KillSignal::Term)
    } else if is_either(k, "k", "K") {
        Answer::Send(KillSignal::Kill)
    } else if same(k, "esc") || is_either(k, "n", "N") {
        Answer::Cancel
    } else {
        Answer::Unclear
    }
}

/// What a key asks of the network or the disk view.
#[derive(Clone, Copy, Debug, PartialEq, Eq, Structural)]
pub enum ListKey {
    Move(Travel),
    /// Sort by download or by read rate.
    SortIn,
    /// Sort by upload or by write rate.
    SortOut,
    SortTotal,
    Search,
    Close,
    Kill,
    Other,
}

/// What a key asks of a view that sorts by the letters `a` and `b`, upper or
/// lower case.
#[verifier::opaque]
pub open spec fn list_key(
    k: Seq<char>,
    a: (Seq<char>, Seq<char>),
    b: (Seq<char>, Seq<char>),
) -> ListKey {
    if let Some(t) = travel(k) {
        ListKey::Move(t)
    } else if either(k, a.0, a.1) {
        ListKey::SortIn
    } else if either(k, b.0, b.1) {
        ListKey::SortOut
    } else if either(k, "t"@, "T"@) {
        ListKey::SortTotal
    } else if k == "/"@ {
        ListKey::Search
    } else if k == "esc"@ {
        ListKey::Close
    } else if either(k, "x"@, "X"@) || k == "f9"@ {
        ListKey::Kill
    } else {
        ListKey::Other
    }
}

fn read_list_key(k: &str, a: (&str, &str), b: (&str, &str)) -> (r: ListKey)
    ensures
        r == list_key(k@, (a.0@, a.1@), (b.0@, b.1@)),
{
    proof {
        reveal(list_key);
    }
    if let Some(t) = read_travel(k) {
        ListKey::Move(t)
    } else if is_either(k, a.0, a.1) {
        ListKey::SortIn
    } else if is_either(k, b.0, b.1) {
        ListKey::SortOut
    } else if is_either(k, "t", "T") {
        ListKey::SortTotal
    } else if same(k, "/") {
        ListKey::Search
    } else if same(k, "esc") {
        ListKey::Close
    } else if is_either(k, "x", "X") || same(k, "f9") {
        ListKey::Kill
    } else {
        ListKey::Other
    }
}

/// What a key asks of the network view.
pub open spec fn net_key(k: Seq<char>) -> ListKey {
    list_key(k, ("d"@, "D"@), ("u"@, "U"@))
}

/// What a key asks of the disk view.
pub open spec fn disk_key(k: Seq<char>) -> ListKey {
    list_key(k, ("r"@, "R"@), ("w"@, "W"@))
}

/// What a key asks of the process table.
#[derive(Clone, Copy, Debug, PartialEq, Eq, Structural)]
pub enum TableKey {
    Move(Travel),
    Tree,
    Mine,
    Sort(ProcSort),
    Kill,
    Other,
}

/// What a key asks of the process table.
#[verifier::opaque]
pub open spec fn table_key(k: Seq<char>) -> TableKey {
    if let Some(t) = travel(k) {
        TableKey::Move(t)
    } else if either(k, "t"@, "T"@) {
        TableKey::Tree
    } else if either(k, "u"@, "U"@) {
        TableKey::Mine
    } else if either(k, "p"@, "P"@) {
        TableKey::Sort(ProcSort::Cpu)
    } else if either(k, "m"@, "M"@) {
        TableKey::Sort(ProcSort::Mem)
    } else if either(k, "g"@, "G"@) {
        TableKey::Sort(ProcSort::Gpu)
    } else if either(k, "x"@, "X"@) || k == "f9"@ {
        TableKey::Kill
    } else {
        TableKey::Other
    }
}

fn read_table_key(k: &str) -> (r: TableKey)
    ensures
        r == table_key(k@),
{
    proof {
        reveal(table_key);
    }
    if let Some(t) = read_travel(k) {
        TableKey::Move(t)
    } else if is_either(k, "t", "T") {
        TableKey::Tree
    } else if is_either(k, "u", "U") {
        TableKey::Mine
    } else if is_either(k, "p", "P") {
        TableKey::Sort(ProcSort::Cpu)
    } else if is_either(k, "m", "M") {
        TableKey::Sort(ProcSort::Mem)
    } else if is_either(k, "g", "G") {
        TableKey::Sort(ProcSort::Gpu)
    } else if is_either(k, "x", "X") || same(k, "f9") {
        TableKey::Kill
    } else {
        TableKey::Other
    }
}

/// What a key asks of the dashboard as a whole.
#[derive(Clone, Copy, Debug, PartialEq, Eq, Structural)]
pub enum MainKey {
    Quit,
    Search,
    Close,
    Cores,
    History,
    Disks,
    Net,
    Pause,
    Faster,
    Slower,
    Table(TableKey),
}

/// What a key asks of the dashboard as a whole.
#[verifier::opaque]
pub open spec fn main_key(k: Seq<char>) -> MainKey {
    if either(k, "q"@, "Q"@) {
        MainKey::Quit
    } else if k == "/"@ {
        MainKey::Search
    } else if k == "esc"@ {
        MainKey::Close
    } else if either(k, "c"@, "C"@) {
        MainKey::Cores
    } else if either(k, "h"@, "H"@) {
        MainKey::History
    } else if either(k, "d"@, "D"@) {
        MainKey::Disks
    } else if either(k, "n"@, "N"@) {
        MainKey::Net
    } else if k == " "@ {
        MainKey::Pause
    } else if either(k, "-"@, "_"@) {
        MainKey::Faster
    } else if either(k, "+"@, "="@) {
        MainKey::Slower
    } else {
        MainKey::Table(table_key(k))
    }
}

fn read_main_key(k: &str) -> (r: MainKey)
    ensures
        r == main_key(k@),
{
    proof {
        reveal(main_key);
    }
    if is_either(k, "q", "Q") {
        MainKey::Quit
    } else if same(k, "/") {
        MainKey::Search
    } else if same(k, "esc") {
        MainKey::Close
    } else if is_either(k, "c", "C") {
        MainKey::Cores
    } else if is_either(k, "h", "H") {
        MainKey::History
    } else if is_either(k, "d", "D") {
        MainKey::Disks
    } else if is_either(k, "n", "N") {
        MainKey::Net
    } else if same(k, " ") {
        MainKey::Pause
    } else if is_either(k, "-", "_") {
        MainKey::Faster
    } else if is_either(k, "+", "=") {
        MainKey::Slower
    } else {
        MainKey::Table(read_table_key(k))
    }
}

/// What a search becomes: nothing where it is left as it is.
#[verifier::opaque]
pub open spec fn edited(search: Seq<char>, k: Seq<char>, typed: Option<char>) -> Option<Seq<char>> {
    if k == "esc"@ {
        Some(seq![])
    } else if k == "backspace"@ {
        if search.len() > 0 {
            Some(search.drop_last())
        } else {
            None
        }
    } else {
        match typed {
            Some(c) => Some(search.push(c)),
            None => None,
        }
    }
}

fn edit(search: &str, k: &str, typed: Option<char>) -> (r: Option<String>)
    ensures
        match r {
            Some(s) => edited(search@, k@, typed) == Some(s@),
            None => edited(search@, k@, typed) is None,
        },
{
    proof {
        reveal(edited);
    }
    if same(k, "esc") {
        let none = String::new();
        proof {
            assert(none@ =~= seq![]);
        }
        Some(none)
    } else if same(k, "backspace") {
        let c: Vec<char> = chars_of(search);
        let n: usize = c.len();
        if n > 0 {
            let s = string_of(&c, 0, n - 1);
            proof {
                assert(s@ =~= search@.drop_last());
            }
            Some(s)
        } else {
            None
        }
    } else {
        match typed {
            Some(c) => {
                let mut s = search.to_owned();
                s.push(c);
                Some(s)
            },
            None => None,
        }
    }
}

impl ControlsModel {
    /// The process table with another search.
    pub open spec fn finding(self, query: Seq<char>, procs: Seq<Process>) -> ControlsModel {
        ControlsModel { table: (ProcTableModel { search: query, ..self.table }).with_rows(procs), ..self }
    }

    /// The network table with another search.
    pub open spec fn finding_conns(self, query: Seq<char>, conns: Seq<ProcConn>) -> ControlsModel {
        ControlsModel { nettable: self.nettable.searching(query, conns), ..self }
    }

    /// The disk table with another search.
    pub open spec fn finding_io(self, query: Seq<char>, io: Seq<ProcIO>) -> ControlsModel {
        ControlsModel { disktable: self.disktable.searching(query, io), ..self }
    }

    /// The process table by a column, its selection on the first row; the
    /// other way round where it was sorted by it.
    pub open spec fn sorted(self, s: ProcSort, procs: Seq<Process>) -> ControlsModel {
        let asc = self.table.sort_by == s && !self.table.asc;
        ControlsModel {
            table: (ProcTableModel { sort_by: s, asc, ..self.table }).with_rows(procs).at_first(),
            ..self
        }
    }

    /// The kill prompt: it answers to its own keys and to nothing else.
    pub open spec fn confirming(self, a: Answer) -> (ControlsModel, Request) {
        match a {
            Answer::Send(signal) => (self, Request::Kill { pid: self.kill_pid, signal }),
            Answer::Cancel => (ControlsModel { kill_pid: 0, ..self }, Request::Nothing),
            Answer::Unclear => (self, Request::Nothing),
        }
    }

    /// The network view's search prompt.
    #[verifier::opaque]
    pub open spec fn net_prompt(self, k: Seq<char>, typed: Option<char>, conns: Seq<ProcConn>) -> ControlsModel {
        if k == "enter"@ {
            ControlsModel { searching: false, ..self }
        } else if let Some(t) = prompt_travel(k) {
            ControlsModel {
                nettable: self.nettable.moved(t.distance(self.nettable.last_visible, self.nettable.rows.len())),
                ..self
            }
        } else {
            let m = ControlsModel { searching: k != "esc"@, ..self };
            match edited(self.nettable.search, k, typed) {
                Some(q) => m.finding_conns(q, conns),
                None => m,
            }
        }
    }

    /// The disk view's search prompt.
    #[verifier::opaque]
    pub open spec fn disk_prompt(self, k: Seq<char>, typed: Option<char>, io: Seq<ProcIO>) -> ControlsModel {
        if k == "enter"@ {
            ControlsModel { searching: false, ..self }
        } else if let Some(t) = prompt_travel(k) {
            ControlsModel {
                disktable: self.disktable.moved(t.distance(self.disktable.last_visible, self.disktable.rows.len())),
                ..self
            }
        } else {
            let m = ControlsModel { searching: k != "esc"@, ..self };
            match edited(self.disktable.search, k, typed) {
                Some(q) => m.finding_io(q, io),
                None => m,
            }
        }
    }

    /// The process table's search prompt.
    #[verifier::opaque]
    pub open spec fn table_prompt(self, k: Seq<char>, typed: Option<char>, procs: Seq<Process>) -> ControlsModel {
        if k == "enter"@ {
            ControlsModel { searching: false, ..self }
        } else if let Some(t) = prompt_travel(k) {
            ControlsModel { table: self.table.moved(t.distance(self.table.last_visible, self.table.rows.len())), ..self }
        } else {
            let m = ControlsModel { searching: k != "esc"@, ..self };
            match edited(self.table.search, k, typed) {
                Some(q) => m.finding(q, procs),
                None => m,
            }
        }
    }

    /// What the network view does with a key: navigation, sorting, search,
    /// closing and kill; nothing with any other.
    #[verifier::opaque]
    pub open spec fn on_net(self, k: ListKey, conns: Seq<ProcConn>) -> ControlsModel {
        match k {
            ListKey::Move(t) => ControlsModel {
                nettable: self.nettable.moved(t.distance(self.nettable.last_visible, self.nettable.rows.len())),
                ..self
            },
            ListKey::SortIn => ControlsModel { nettable: self.nettable.sorted_by(NetSort::Down), ..self },
            ListKey::SortOut => ControlsModel { nettable: self.nettable.sorted_by(NetSort::Up), ..self },
            ListKey::SortTotal => ControlsModel { nettable: self.nettable.sorted_by(NetSort::Total), ..self },
            ListKey::Search => ControlsModel { searching: true, ..self },
            ListKey::Close => if self.nettable.search.len() > 0 {
                self.finding_conns(""@, conns)
            } else {
                ControlsModel { show_net: false, ..self }
            },
            ListKey::Kill => match self.nettable.selection() {
                Some(c) => ControlsModel { kill_pid: c.pid, kill_name: c.name@, ..self },
                None => self,
            },
            ListKey::Other => self,
        }
    }

    /// What the disk view does with a key: navigation, sorting, search,
    /// closing and kill; nothing with any other.
    #[verifier::opaque]
    pub open spec fn on_disks(self, k: ListKey, io: Seq<ProcIO>) -> ControlsModel {
        match k {
            ListKey::Move(t) => ControlsModel {
                disktable: self.disktable.moved(t.distance(self.disktable.last_visible, self.disktable.rows.len())),
                ..self
            },
            ListKey::SortIn => ControlsModel { disktable: self.disktable.sorted_by(DiskSort::Read), ..self },
            ListKey::SortOut => ControlsModel { disktable: self.disktable.sorted_by(DiskSort::Write), ..self },
            ListKey::SortTotal => ControlsModel { disktable: self.disktable.sorted_by(DiskSort::Total), ..self },
            ListKey::Search => ControlsModel { searching: true, ..self },
            ListKey::Close => if self.disktable.search.len() > 0 {
                self.finding_io(""@, io)
            } else {
                ControlsModel { show_disks: false, ..self }
            },
            ListKey::Kill => match self.disktable.selection() {
                Some(p) => ControlsModel { kill_pid: p.pid, kill_name: p.name@, ..self },
                None => self,
            },
            ListKey::Other => self,
        }
    }

    /// What the process table does with a key: navigation, sorting, filters
    /// and kill; nothing with any other.
    #[verifier::opaque]
    pub open spec fn on_table(self, k: TableKey, procs: Seq<Process>) -> ControlsModel {
        match k {
            TableKey::Move(t) => ControlsModel {
                table: self.table.moved(t.distance(self.table.last_visible, self.table.rows.len())),
                ..self
            },
            TableKey::Tree => ControlsModel {
                table: (ProcTableModel { tree: !self.table.tree, ..self.table }).with_rows(procs),
                ..self
            },
            TableKey::Mine => ControlsModel {
                table: (ProcTableModel { mine_only: !self.table.mine_only, ..self.table }).with_rows(procs),
                ..self
            },
            TableKey::Sort(s) => if s != ProcSort::Gpu || self.table.show_gpu {
                self.sorted(s, procs)
            } else {
                self
            },
            TableKey::Kill => match self.table.selection() {
                Some(p) => ControlsModel { kill_pid: p.pid, kill_name: p.command@, ..self },
                None => self,
            },
            TableKey::Other => self,
        }
    }

    /// What the dashboard as a whole does with a key.
    #[verifier::opaque]
    pub open spec fn on_main(self, k: MainKey, l: Listing) -> (ControlsModel, Request) {
        match k {
            MainKey::Quit => (ControlsModel { should_quit: true, ..self }, Request::Nothing),
            MainKey::Search => (ControlsModel { searching: true, ..self }, Request::Nothing),
            MainKey::Close => if self.show_disks || self.show_net {
                (ControlsModel { show_disks: false, show_net: false, ..self }, Request::Nothing)
            } else if self.table.search.len() > 0 {
                (self.finding(""@, l.procs), Request::Nothing)
            } else {
                (self, Request::Nothing)
            },
            MainKey::Cores => (ControlsModel { show_cores: !self.show_cores, ..self }, Request::Nothing),
            MainKey::History => (ControlsModel { show_history: !self.show_history, ..self }, Request::Nothing),
            MainKey::Disks => if !l.disk_on {
                (self, Request::Nothing)
            } else if self.show_disks {
                (ControlsModel { show_disks: false, ..self }, Request::Nothing)
            } else {
                (ControlsModel { show_disks: true, show_net: false, ..self }, Request::ScanDisks)
            },
            MainKey::Net => if !l.system_on {
                (self, Request::Nothing)
            } else if self.show_net {
                (ControlsModel { show_net: false, ..self }, Request::Nothing)
            } else {
                (ControlsModel { show_net: true, show_disks: false, ..self }, Request::ScanNet)
            },
            MainKey::Pause => (ControlsModel { paused: !self.paused, ..self }, Request::Nothing),
            MainKey::Faster => (
                ControlsModel { interval_ms: interval_within(self.interval_ms - 100) as i64, ..self },
                Request::Nothing,
            ),
            MainKey::Slower => (
                ControlsModel { interval_ms: interval_within(self.interval_ms + 100) as i64, ..self },
                Request::Nothing,
            ),
            MainKey::Table(t) => (self.on_table(t, l.procs), Request::Nothing),
        }
    }

    /// What a key does. The kill prompt comes before all else but the key that
    /// always quits, then a search that is being typed, then the view on top.
    pub open spec fn pressed(self, ev: KeyEvent, l: Listing) -> (ControlsModel, Request) {
        let k = ev.name();
        let typed = ev.character();
        if k == "ctrl+c"@ {
            (ControlsModel { should_quit: true, ..self }, Request::Nothing)
        } else if self.kill_pid != 0 {
            self.confirming(answer(k))
        } else if self.searching && self.show_net {
            (self.net_prompt(k, typed, l.conns), Request::Nothing)
        } else if self.searching && self.show_disks {
            (self.disk_prompt(k, typed, l.io), Request::Nothing)
        } else if self.searching {
            (self.table_prompt(k, typed, l.procs), Request::Nothing)
        } else if self.show_net && net_key(k) != ListKey::Other {
            (self.on_net(net_key(k), l.conns), Request::Nothing)
        } else if self.show_disks && disk_key(k) != ListKey::Other {
            (self.on_disks(disk_key(k), l.io), Request::Nothing)
        } else {
            self.on_main(main_key(k), l)
        }
    }

    /// What the mouse does: the wheel moves the selection of the view on top,
    /// a click on the process table selects a row or sorts by a column.
    pub open spec fn pointed(self, m: MouseEvent, procs: Seq<Process>) -> ControlsModel {
        let wheel = match m.kind {
            MouseEventKind::ScrollUp => Some(-3int),
            MouseEventKind::ScrollDown => Some(3int),
            _ => None,
        };
        if self.show_net {
            match wheel {
                Some(d) => ControlsModel { nettable: self.nettable.moved(d), ..self },
                None => self,
            }
        } else if self.show_disks {
            match wheel {
                Some(d) => ControlsModel { disktable: self.disktable.moved(d), ..self },
                None => self,
            }
        } else if let Some(d) = wheel {
            ControlsModel { table: self.table.moved(d), ..self }
        } else if m.kind != MouseEventKind::LeftDown || self.kill_pid != 0 || self.table_top == 0 {
            self
        } else {
            self.clicked(m.row as int, m.column as int, procs)
        }
    }

    /// A click on the process table: on the header it sorts by the column, on
    /// a row it selects it.
    pub open spec fn clicked(self, row: int, column: int, procs: Seq<Process>) -> ControlsModel {
        if row == self.table_top - 1 {
            match self.table.sort_hit(column - PAD_X) {
                Some(s) => self.sorted(s, procs),
                None => self,
            }
        } else {
            ControlsModel { table: self.table.selecting(row - self.table_top), ..self }
        }
    }

    /// The kill prompt closed, its outcome in the status line.
    pub open spec fn after_kill(self, signal: KillSignal, failure: Option<Seq<char>>) -> ControlsModel {
        let pid = signed_numeral(self.kill_pid as int);
        ControlsModel {
            status: match failure {
                Some(e) => "kill "@ + pid + " failed: "@ + e,
                None => "sent "@ + signal.spelled() + " to PID "@ + pid,
            },
            kill_pid: 0,
            status_ttl: 5,
            ..self
        }
    }
}

impl Controls {
    fn find(&mut self, query: String, procs: &Vec<Process>)
        requires
            old(self).wf(),
        ensures
            final(self).wf(),
            final(self).model() == old(self).model().finding(query@, procs@),
    {
        self.table.look_for(query);
        self.table.set_rows(procs);
    }

    fn find_conns(&mut self, query: &str, conns: &Vec<ProcConn>)
        requires
            old(self).wf(),
        ensures
            final(self).wf(),
            final(self).model() == old(self).model().finding_conns(query@, conns@),
    {
        self.nettable.set_search(query, conns);
    }

    fn find_io(&mut self, query: &str, io: &Vec<ProcIO>)
        requires
            old(self).wf(),
        ensures
            final(self).wf(),
            final(self).model() == old(self).model().finding_io(query@, io@),
    {
        self.disktable.set_search(query, io);
    }

    #[verifier::rlimit(60)]
    fn set_sort(&mut self, s: ProcSort, procs: &Vec<Process>)
        requires
            old(self).wf(),
        ensures
            final(self).wf(),
            final(self).model() == old(self).model().sorted(s, procs@),
    {
        let asc = self.table.sort_by == s && !self.table.asc;
        let tree = self.table.tree;
        let mine = self.table.mine_only;
        self.table.prefer(s, asc, tree, mine);
        self.table.set_rows(procs);
        self.table.select_first();
    }

    fn confirm(&mut self, a: Answer) -> (r: Request)
        requires
            old(self).wf(),
        ensures
            final(self).wf(),
            final(self).model() == old(self).model().confirming(a).0,
            r == old(self).model().confirming(a).1,
    {
        match a {
            Answer::Send(signal) => Request::Kill { pid: self.kill_pid, signal },
            Answer::Cancel => {
                self.kill_pid = 0;
                Request::Nothing
            },
            Answer::Unclear => Request::Nothing,
        }
    }

    #[verifier::rlimit(60)]
    fn net_prompt(&mut self, k: &str, typed: Option<char>, conns: &Vec<ProcConn>)
        requires
            old(self).wf(),
        ensures
            final(self).wf(),
            final(self).model() == old(self).model().net_prompt(k@, typed, conns@),
    {
        proof {
            reveal(ControlsModel::net_prompt);
        }
        if same(k, "enter") {
            self.searching = false;
            return;
        }
        if let Some(t) = read_prompt_travel(k) {
            self.nettable.travel(t);
            return;
        }
        let next = edit(self.nettable.search.as_str(), k, typed);
        self.searching = !same(k, "esc");
        match next {
            Some(q) => self.find_conns(q.as_str(), conns),
            None => {},
        }
    }

    #[verifier::rlimit(60)]
    fn disk_prompt(&mut self, k: &str, typed: Option<char>, io: &Vec<ProcIO>)
        requires
            old(self).wf(),
        ensures
            final(self).wf(),
            final(self).model() == old(self).model().disk_prompt(k@, typed, io@),
    {
        proof {
            reveal(ControlsModel::disk_prompt);
        }
        if same(k, "enter") {
            self.searching = false;
            return;
        }
        if let Some(t) = read_prompt_travel(k) {
            self.disktable.travel(t);
            return;
        }
        let next = edit(self.disktable.search.as_str(), k, typed);
        self.searching = !same(k, "esc");
        match next {
            Some(q) => self.find_io(q.as_str(), io),
            None => {},
        }
    }

    #[verifier::rlimit(60)]
    fn table_prompt(&mut self, k: &str, typed: Option<char>, procs: &Vec<Process>)
        requires
            old(self).wf(),
        ensures
            final(self).wf(),
            final(self).model() == old(self).model().table_prompt(k@, typed, procs@),
    {
        proof {
            reveal(ControlsModel::table_prompt);
        }
        if same(k, "enter") {
            self.searching = false;
            return;
        }
        if let Some(t) = read_prompt_travel(k) {
            self.table.travel(t);
            return;
        }
        let next = edit(self.table.search.as_str(), k, typed);
        self.searching = !same(k, "esc");
        match next {
            Some(q) => self.find(q, procs),
            None => {},
        }
    }

    #[verifier::rlimit(60)]
    fn on_net(&mut self, k: ListKey, conns: &Vec<ProcConn>)
        requires
            old(self).wf(),
        ensures
            final(self).wf(),
            final(self).model() == old(self).model().on_net(k, conns@),
    {
        proof {
            reveal(ControlsModel::on_net);
        }
        match k {
            ListKey::Move(t) => self.nettable.travel(t),
            ListKey::SortIn => self.nettable.set_sort(NetSort::Down),
            ListKey::SortOut => self.nettable.set_sort(NetSort::Up),
            ListKey::SortTotal => self.nettable.set_sort(NetSort::Total),
            ListKey::Search => {
                self.searching = true;
            },
            ListKey::Close => {
                if !self.nettable.search.as_str().is_empty() {
                    self.find_conns("", conns);
                } else {
                    self.show_net = false;
                }
            },
            ListKey::Kill => self.ask_kill_conn(),
            ListKey::Other => {},
        }
    }

    fn ask_kill_conn(&mut self)
        requires
            old(self).wf(),
        ensures
            final(self).wf(),
            final(self).model() == old(self).model().on_net(ListKey::Kill, seq![]),
    {
        proof {
            reveal(ControlsModel::on_net);
        }
        let chosen = match self.nettable.selected() {
            Some(c) => Some((c.pid, c.name.clone())),
            None => None,
        };
        match chosen {
            Some((pid, name)) => {
                self.kill_pid = pid;
                self.kill_name = name;
            },
            None => {},
        }
    }

    #[verifier::rlimit(60)]
    fn on_disks(&mut self, k: ListKey, io: &Vec<ProcIO>)
        requires
            old(self).wf(),
        ensures
            final(self).wf(),
            final(self).model() == old(self).model().on_disks(k, io@),
    {
        proof {
            reveal(ControlsModel::on_disks);
        }
        match k {
            ListKey::Move(t) => self.disktable.travel(t),
            ListKey::SortIn => self.disktable.set_sort(DiskSort::Read),
            ListKey::SortOut => self.disktable.set_sort(DiskSort::Write),
            ListKey::SortTotal => self.disktable.set_sort(DiskSort::Total),
            ListKey::Search => {
                self.searching = true;
            },
            ListKey::Close => {
                if !self.disktable.search.as_str().is_empty() {
                    self.find_io("", io);
                } else {
                    self.show_disks = false;
                }
            },
            ListKey::Kill => self.ask_kill_io(),
            ListKey::Other => {},
        }
    }

    fn ask_kill_io(&mut self)
        requires
            old(self).wf(),
        ensures
            final(self).wf(),
            final(self).model() == old(self).model().on_disks(ListKey::Kill, seq![]),
    {
        proof {
            reveal(ControlsModel::on_disks);
        }
        let chosen = match self.disktable.selected() {
            Some(c) => Some((c.pid, c.name.clone())),
            None => None,
        };
        match chosen {
            Some((pid, name)) => {
                self.kill_pid = pid;
                self.kill_name = name;
            },
            None => {},
        }
    }

    #[verifier::rlimit(60)]
    fn on_table(&mut self, k: TableKey, procs: &Vec<Process>)
        requires
            old(self).wf(),
        ensures
            final(self).wf(),
            final(self).model() == old(self).model().on_table(k, procs@),
    {
        proof {
            reveal(ControlsModel::on_table);
        }
        match k {
            TableKey::Move(t) => self.table.travel(t),
            TableKey::Tree => {
                let tree = !self.table.tree;
                let mine = self.table.mine_only;
                self.filter(tree, mine, procs);
            },
            TableKey::Mine => {
                let tree = self.table.tree;
                let mine = !self.table.mine_only;
                self.filter(tree, mine, procs);
            },
            TableKey::Sort(s) => {
                if s != ProcSort::Gpu || self.table.show_gpu {
                    self.set_sort(s, procs);
                }
            },
            TableKey::Kill => self.ask_kill(),
            TableKey::Other => {},
        }
    }

    fn filter(&mut self, tree: bool, mine_only: bool, procs: &Vec<Process>)
        requires
            old(self).wf(),
        ensures
            final(self).wf(),
            final(self).model() == (ControlsModel {
                table: (ProcTableModel { tree, mine_only, ..old(self).table.model() }).with_rows(procs@),
                ..old(self).model()
            }),
    {
        let by = self.table.sort_by;
        let asc = self.table.asc;
        self.table.prefer(by, asc, tree, mine_only);
        self.table.set_rows(procs);
    }

    fn ask_kill(&mut self)
        requires
            old(self).wf(),
        ensures
            final(self).wf(),
            final(self).model() == old(self).model().on_table(TableKey::Kill, seq![]),
    {
        proof {
            reveal(ControlsModel::on_table);
        }
        let chosen = match self.table.selected() {
            Some(p) => Some((p.pid, p.command.clone())),
            None => None,
        };
        match chosen {
            Some((pid, name)) => {
                self.kill_pid = pid;
                self.kill_name = name;
            },
            None => {},
        }
    }

    #[verifier::rlimit(60)]
    fn set_interval(&mut self, step: i64)
        requires
            old(self).wf(),
            -1000 <= step <= 1000,
        ensures
            final(self).wf(),
            final(self).model() == (ControlsModel {
                interval_ms: interval_within(old(self).interval_ms + step) as i64,
                ..old(self).model()
            }),
    {
        // Far from the range the step makes no difference.
        let near: i64 = if self.interval_ms < -10000 {
            -10000
        } else if self.interval_ms > 10000 {
            10000
        } else {
            self.interval_ms
        };
        self.interval_ms = clamp_interval(near + step);
    }

    #[verifier::rlimit(60)]
    fn on_main(&mut self, k: MainKey, s: &Scans) -> (r: Request)
        requires
            old(self).wf(),
        ensures
            final(self).wf(),
            final(self).model() == old(self).model().on_main(k, s@).0,
            r == old(self).model().on_main(k, s@).1,
    {
        proof {
            reveal(ControlsModel::on_main);
        }
        match k {
            MainKey::Quit => {
                self.should_quit = true;
            },
            MainKey::Search => {
                self.searching = true;
            },
            MainKey::Close => {
                if self.show_disks || self.show_net {
                    self.show_disks = false;
                    self.show_net = false;
                } else if !self.table.search.as_str().is_empty() {
                    self.find("".to_owned(), s.procs);
                }
            },
            MainKey::Cores => {
                self.show_cores = !self.show_cores;
            },
            MainKey::History => {
                self.show_history = !self.show_history;
            },
            MainKey::Disks => {
                if s.disk_on {
                    self.show_disks = !self.show_disks;
                    if self.show_disks {
                        self.show_net = false;
                        return Request::ScanDisks;
                    }
                }
            },
            MainKey::Net => {
                if s.system_on {
                    self.show_net = !self.show_net;
                    if self.show_net {
                        self.show_disks = false;
                        return Request::ScanNet;
                    }
                }
            },
            MainKey::Pause => {
                self.paused = !self.paused;
            },
            MainKey::Faster => self.set_interval(-100),
            MainKey::Slower => self.set_interval(100),
            MainKey::Table(t) => self.on_table(t, s.procs),
        }
        Request::Nothing
    }

    /// Processes a key; sets `should_quit` when the app exits. What the key
    /// asks of the outside world is handed back.
    #[verifier::rlimit(60)]
    pub fn handle_key(&mut self, ev: KeyEvent, s: &Scans) -> (r: Request)
        requires
            old(self).wf(),
        ensures
            final(self).wf(),
            final(self).model() == old(self).model().pressed(ev, s@).0,
            r == old(self).model().pressed(ev, s@).1,
    {
        let typed = ev.typed();
        let key = key_string(&ev);
        let k = key.as_str();
        if same(k, "ctrl+c") {
            self.should_quit = true;
            return Request::Nothing;
        }
        // The kill-confirm prompt is modal.
        if self.kill_pid != 0 {
            return self.confirm(read_answer(k));
        }
        if self.searching {
            if self.show_net {
                self.net_prompt(k, typed, s.conns);
            } else if self.show_disks {
                self.disk_prompt(k, typed, s.io);
            } else {
                self.table_prompt(k, typed, s.procs);
            }
            return Request::Nothing;
        }
        if self.show_net {
            let n = read_list_key(k, ("d", "D"), ("u", "U"));
            if n != ListKey::Other {
                self.on_net(n, s.conns);
                return Request::Nothing;
            }
        }
        if self.show_disks {
            let d = read_list_key(k, ("r", "R"), ("w", "W"));
            if d != ListKey::Other {
                self.on_disks(d, s.io);
                return Request::Nothing;
            }
        }
        self.on_main(read_main_key(k), s)
    }

    /// Processes what the mouse did.
    #[verifier::rlimit(60)]
    pub fn handle_mouse(&mut self, m: MouseEvent, procs: &Vec<Process>)
        requires
            old(self).wf(),
        ensures
            final(self).wf(),
            final(self).model() == old(self).model().pointed(m, procs@),
    {
        let wheel: i64 = match m.kind {
            MouseEventKind::ScrollUp => -3,
            MouseEventKind::ScrollDown => 3,
            _ => 0,
        };
        if self.show_net {
            if wheel != 0 {
                self.nettable.move_by(wheel);
            }
            return;
        }
        if self.show_disks {
            if wheel != 0 {
                self.disktable.move_by(wheel);
            }
            return;
        }
        if wheel != 0 {
            self.table.move_by(wheel);
            return;
        }
        if m.kind != MouseEventKind::LeftDown || self.kill_pid != 0 || self.table_top == 0 {
            return;
        }
        self.click(m.row, m.column, procs);
    }

    #[verifier::rlimit(60)]
    fn click(&mut self, row: u16, column: u16, procs: &Vec<Process>)
        requires
            old(self).wf(),
            old(self).table_top > 0,
        ensures
            final(self).wf(),
            final(self).model() == old(self).model().clicked(row as int, column as int, procs@),
    {
        if row as usize == self.table_top - 1 {
            if let Some(s) = self.table.sort_hit_at(column as i64 - PAD_X as i64) {
                self.set_sort(s, procs);
            }
            return;
        }
        if row as usize >= self.table_top {
            let offset: usize = row as usize - self.table_top;
            let _hit = self.table.select_visible(offset as i64);
        }
    }

    /// Reports what became of sending a signal.
    #[verifier::rlimit(60)]
    pub fn killed(&mut self, signal: KillSignal, outcome: Result<(), String>)
        requires
            old(self).wf(),
        ensures
            final(self).wf(),
            final(self).model() == old(self).model().after_kill(
                signal,
                match outcome {
                    Ok(_) => None,
                    Err(e) => Some(e@),
                },
            ),
    {
        let pid = signed_numeral_of(self.kill_pid as i64);
        self.status = match outcome {
            Err(e) => {
                let mut s = "kill ".to_owned();
                s.append(pid.as_str());
                s.append(" failed: ");
                s.append(e.as_str());
                s
            },
            Ok(_) => {
                let mut s = "sent ".to_owned();
                s.append(signal.name());
                s.append(" to PID ");
                s.append(pid.as_str());
                s
            },
        };
        self.kill_pid = 0;
        self.status_ttl = 5;
    }
}

/// The names of the keys that are not characters are no character's.
proof fn lemma_names_apart(c: char)
    ensures
        seq![c] != "ctrl+c"@,
        seq![c] != "enter"@,
        seq![c] != "esc"@,
        seq![c] != "backspace"@,
        seq![c] != "down"@,
        seq![c] != "up"@,
        seq![c] != "pgdown"@,
        seq![c] != "pgup"@,
{
    reveal_strlit("ctrl+c");
    reveal_strlit("enter");
    reveal_strlit("esc");
    reveal_strlit("backspace");
    reveal_strlit("down");
    reveal_strlit("up");
    reveal_strlit("pgdown");
    reveal_strlit("pgup");
    assert(seq![c].len() == 1);
    assert("ctrl+c"@.len() == 6);
    assert("enter"@.len() == 5);
    assert("down"@.len() == 4);
}

/// The name of the Escape key is that of no other.
proof fn lemma_esc_apart()
    ensures
        "esc"@ != "ctrl+c"@,
        "esc"@ != "enter"@,
        "esc"@ != "backspace"@,
        answer("esc"@) == Answer::Cancel,
        prompt_travel("esc"@) is None,
        net_key("esc"@) == ListKey::Close,
        disk_key("esc"@) == ListKey::Close,
        main_key("esc"@) == MainKey::Close,
{
    reveal(prompt_travel);
    reveal(travel);
    reveal(answer);
    reveal(list_key);
    reveal(main_key);
    reveal_strlit("esc");
    reveal_strlit("ctrl+c");
    reveal_strlit("enter");
    reveal_strlit("backspace");
    reveal_strlit("down");
    reveal_strlit("up");
    reveal_strlit("pgdown");
    reveal_strlit("pgup");
    reveal_strlit("home");
    reveal_strlit("end");
    reveal_strlit("t");
    reveal_strlit("T");
    reveal_strlit("k");
    reveal_strlit("K");
    reveal_strlit("n");
    reveal_strlit("N");
    reveal_strlit("j");
    reveal_strlit("d");
    reveal_strlit("D");
    reveal_strlit("u");
    reveal_strlit("U");
    reveal_strlit("r");
    reveal_strlit("R");
    reveal_strlit("w");
    reveal_strlit("W");
    reveal_strlit("/");
    reveal_strlit("q");
    reveal_strlit("Q");
    assert("esc"@[0] == 'e' && "esc"@[1] == 's');
    assert("end"@[1] == 'n');
}

/// What the search prompts leave alone.
proof fn lemma_prompts_keep(c: ControlsModel, k: Seq<char>, typed: Option<char>, l: Listing)
    ensures
        ({
            let n = c.net_prompt(k, typed, l.conns);
            let d = c.disk_prompt(k, typed, l.io);
            let t = c.table_prompt(k, typed, l.procs);
            &&& (n.show_net, n.show_disks, n.interval_ms) == (c.show_net, c.show_disks, c.interval_ms)
            &&& (d.show_net, d.show_disks, d.interval_ms) == (c.show_net, c.show_disks, c.interval_ms)
            &&& (t.show_net, t.show_disks, t.interval_ms) == (c.show_net, c.show_disks, c.interval_ms)
        }),
{
    reveal(ControlsModel::net_prompt);
    reveal(ControlsModel::disk_prompt);
    reveal(ControlsModel::table_prompt);
}

/// What the views and the process table leave alone.
proof fn lemma_views_keep(c: ControlsModel, k: ListKey, t: TableKey, l: Listing)
    ensures
        ({
            let n = c.on_net(k, l.conns);
            let d = c.on_disks(k, l.io);
            let p = c.on_table(t, l.procs);
            &&& (n.show_disks, n.interval_ms) == (c.show_disks, c.interval_ms)
            &&& n.show_net ==> c.show_net
            &&& (d.show_net, d.interval_ms) == (c.show_net, c.interval_ms)
            &&& d.show_disks ==> c.show_disks
            &&& (p.show_net, p.show_disks, p.interval_ms) == (c.show_net, c.show_disks, c.interval_ms)
        }),
{
    reveal(ControlsModel::on_net);
    reveal(ControlsModel::on_disks);
    reveal(ControlsModel::on_table);
}

/// How a key may change the views and the interval.
#[verifier::rlimit(60)]
proof fn lemma_pressed_views(c: ControlsModel, ev: KeyEvent, l: Listing)
    ensures
        ({
            let (d, r) = c.pressed(ev, l);
            &&& d.show_net && !c.show_net ==> l.system_on && !d.show_disks && r == Request::ScanNet
            &&& d.show_disks && !c.show_disks ==> l.disk_on && !d.show_net && r == Request::ScanDisks
            &&& d.interval_ms == c.interval_ms || 100 <= d.interval_ms <= 5000
        }),
{
    let k = ev.name();
    lemma_prompts_keep(c, k, ev.character(), l);
    lemma_views_keep(c, net_key(k), table_key(k), l);
    lemma_views_keep(c, disk_key(k), table_key(k), l);
    reveal(ControlsModel::on_main);
    match main_key(k) {
        MainKey::Table(t) => {
            lemma_views_keep(c, ListKey::Other, t, l);
        },
        _ => {},
    }
}

/// The kill prompt is modal: until it is answered no key does anything but
/// answer it or quit, and the signal goes to the process it asked about.
pub proof fn lemma_kill_prompt_modal(c: ControlsModel, ev: KeyEvent, l: Listing)
    requires
        c.kill_pid != 0,
        ev.name() != "ctrl+c"@,
    ensures
        ({
            let (d, r) = c.pressed(ev, l);
            &&& d == (ControlsModel { kill_pid: d.kill_pid, ..c })
            &&& d.kill_pid == c.kill_pid || d.kill_pid == 0
            &&& match r {
                Request::Nothing => true,
                Request::Kill { pid, signal } => pid == c.kill_pid && d == c,
                _ => false,
            }
        }),
{
}

/// No process is sent a signal unless the prompt asked about it.
pub proof fn lemma_kill_is_confirmed(c: ControlsModel, ev: KeyEvent, l: Listing)
    ensures
        c.pressed(ev, l).1 matches Request::Kill { pid, signal } ==> c.kill_pid != 0 && pid == c.kill_pid && answer(
            ev.name(),
        ) == Answer::Send(signal),
{
    reveal(ControlsModel::on_main);
}

/// One key quits whatever is on the screen.
pub proof fn lemma_always_quits(c: ControlsModel, ev: KeyEvent, l: Listing)
    requires
        ev.name() == "ctrl+c"@,
    ensures
        c.pressed(ev, l).0.should_quit,
{
}

/// Escape closes what is on top: the kill prompt, the search that is being
/// typed (which it clears), the filter of the view on top, the view, or at
/// last the filter of the process table.
#[verifier::rlimit(60)]
pub proof fn lemma_escape_closes(c: ControlsModel, ev: KeyEvent, l: Listing)
    requires
        ev.name() == "esc"@,
    ensures
        ({
            let d = c.pressed(ev, l).0;
            if c.kill_pid != 0 {
                d.kill_pid == 0
            } else if c.searching {
                !d.searching && (if c.show_net {
                    d.nettable.search
                } else if c.show_disks {
                    d.disktable.search
                } else {
                    d.table.search
                }).len() == 0
            } else if c.show_net {
                if c.nettable.search.len() > 0 {
                    d.nettable.search.len() == 0 && d.show_net
                } else {
                    !d.show_net
                }
            } else if c.show_disks {
                if c.disktable.search.len() > 0 {
                    d.disktable.search.len() == 0 && d.show_disks
                } else {
                    !d.show_disks
                }
            } else {
                d.table.search.len() == 0
            }
        }),
{
    lemma_esc_apart();
    reveal_strlit("");
    reveal(ControlsModel::net_prompt);
    reveal(ControlsModel::disk_prompt);
    reveal(ControlsModel::table_prompt);
    reveal(ControlsModel::on_net);
    reveal(ControlsModel::on_disks);
    reveal(ControlsModel::on_main);
    reveal(edited);
    reveal(ProcTableModel::with_rows);
    reveal(super::nettable::NetTableModel::with_rows);
    reveal(super::disktable::DiskTableModel::with_rows);
}

/// While a search is typed, a character becomes the last of the query of the
/// view on top.
#[verifier::rlimit(60)]
pub proof fn lemma_typing_searches(c: ControlsModel, x: char, l: Listing)
    requires
        c.kill_pid == 0,
        c.searching,
    ensures
        ({
            let d = c.pressed(KeyEvent { code: KeyCode::Char(x), ctrl: false, alt: false }, l).0;
            &&& d.searching
            &&& if c.show_net {
                d.nettable.search == c.nettable.search.push(x)
            } else if c.show_disks {
                d.disktable.search == c.disktable.search.push(x)
            } else {
                d.table.search == c.table.search.push(x)
            }
        }),
{
    lemma_names_apart(x);
    reveal(ControlsModel::net_prompt);
    reveal(ControlsModel::disk_prompt);
    reveal(ControlsModel::table_prompt);
    reveal(prompt_travel);
    reveal(edited);
    reveal(ProcTableModel::with_rows);
    reveal(super::nettable::NetTableModel::with_rows);
    reveal(super::disktable::DiskTableModel::with_rows);
}

/// At most one of the full-screen views is open.
pub proof fn lemma_one_view(c: ControlsModel, ev: KeyEvent, l: Listing)
    requires
        !(c.show_net && c.show_disks),
    ensures
        !(c.pressed(ev, l).0.show_net && c.pressed(ev, l).0.show_disks),
{
    lemma_pressed_views(c, ev, l);
}

/// A view that is configured off does not open.
pub proof fn lemma_view_stays_off(c: ControlsModel, ev: KeyEvent, l: Listing)
    ensures
        !l.disk_on && !c.show_disks ==> !c.pressed(ev, l).0.show_disks,
        !l.system_on && !c.show_net ==> !c.pressed(ev, l).0.show_net,
        !c.show_disks && c.pressed(ev, l).0.show_disks ==> c.pressed(ev, l).1 == Request::ScanDisks,
        !c.show_net && c.pressed(ev, l).0.show_net ==> c.pressed(ev, l).1 == Request::ScanNet,
{
    lemma_pressed_views(c, ev, l);
}

/// Sorting by the column that is already sorted turns the order round; any
/// other column starts highest first. Either way the first row is selected.
pub proof fn lemma_sort_again_reverses(c: ControlsModel, s: ProcSort, procs: Seq<Process>)
    ensures
        c.sorted(s, procs).table.sort_by == s,
        c.sorted(s, procs).table.asc == (c.table.sort_by == s && !c.table.asc),
        c.sorted(s, procs).sorted(s, procs).table.asc == !c.sorted(s, procs).table.asc,
        c.sorted(s, procs).table.sel_idx == 0,
{
    reveal(ProcTableModel::with_rows);
}

/// A key changes the refresh interval only within its range.
pub proof fn lemma_interval_bounded(c: ControlsModel, ev: KeyEvent, l: Listing)
    ensures
        c.pressed(ev, l).0.interval_ms == c.interval_ms || 100 <= c.pressed(ev, l).0.interval_ms <= 5000,
{
    lemma_pressed_views(c, ev, l);
}

/// The key that types a character.
pub open spec fn typing(c: char) -> KeyEvent {
    KeyEvent { code: KeyCode::Char(c), ctrl: false, alt: false }
}

proof fn lemma_letter_names()
    ensures
        "q"@ == seq!['q'] && "Q"@ == seq!['Q'] && "/"@ == seq!['/'] && "c"@ == seq!['c'] && "C"@ == seq!['C'],
        "h"@ == seq!['h'] && "H"@ == seq!['H'] && "d"@ == seq!['d'] && "D"@ == seq!['D'] && "n"@ == seq!['n'],
        "N"@ == seq!['N'] && " "@ == seq![' '] && "-"@ == seq!['-'] && "_"@ == seq!['_'] && "+"@ == seq!['+'],
        "="@ == seq!['='] && "t"@ == seq!['t'] && "T"@ == seq!['T'] && "u"@ == seq!['u'] && "U"@ == seq!['U'],
        "p"@ == seq!['p'] && "P"@ == seq!['P'] && "m"@ == seq!['m'] && "M"@ == seq!['M'] && "g"@ == seq!['g'],
        "G"@ == seq!['G'] && "x"@ == seq!['x'] && "X"@ == seq!['X'] && "j"@ == seq!['j'] && "k"@ == seq!['k'],
        "r"@ == seq!['r'] && "R"@ == seq!['R'] && "w"@ == seq!['w'] && "W"@ == seq!['W'],
        "esc"@.len() == 3 && "f9"@.len() == 2 && "home"@.len() == 4 && "end"@.len() == 3 && "down"@.len() == 4,
        "up"@.len() == 2 && "pgdown"@.len() == 6 && "pgup"@.len() == 4 && "ctrl+c"@.len() == 6,
{
    reveal_strlit("q");
    reveal_strlit("Q");
    reveal_strlit("/");
    reveal_strlit("c");
    reveal_strlit("C");
    reveal_strlit("h");
    reveal_strlit("H");
    reveal_strlit("d");
    reveal_strlit("D");
    reveal_strlit("n");
    reveal_strlit("N");
    reveal_strlit(" ");
    reveal_strlit("-");
    reveal_strlit("_");
    reveal_strlit("+");
    reveal_strlit("=");
    reveal_strlit("t");
    reveal_strlit("T");
    reveal_strlit("u");
    reveal_strlit("U");
    reveal_strlit("p");
    reveal_strlit("P");
    reveal_strlit("m");
    reveal_strlit("M");
    reveal_strlit("g");
    reveal_strlit("G");
    reveal_strlit("x");
    reveal_strlit("X");
    reveal_strlit("j");
    reveal_strlit("k");
    reveal_strlit("r");
    reveal_strlit("R");
    reveal_strlit("w");
    reveal_strlit("W");
    reveal_strlit("esc");
    reveal_strlit("f9");
    reveal_strlit("home");
    reveal_strlit("end");
    reveal_strlit("down");
    reveal_strlit("up");
    reveal_strlit("pgdown");
    reveal_strlit("pgup");
    reveal_strlit("ctrl+c");
}

/// Names of one letter are the same where the letters are.
proof fn lemma_letters_tell(c: char)
    ensures
        forall|d: char| (seq![c] == #[trigger] seq![d]) == (c == d),
{
    assert forall|d: char| (seq![c] == #[trigger] seq![d]) == (c == d) by {
        assert(seq![c][0] == c);
        assert(seq![d][0] == d);
    }
}

/// The letter keys of the dashboard: `q` quits, `c` and `h` show and hide cores
/// and history, space pauses and goes on, `/` starts a search, `d` and `n` open
/// the views that are on.
pub proof fn lemma_dashboard_keys(c: ControlsModel, l: Listing, ch: char)
    requires
        c.kill_pid == 0,
        !c.searching,
        !c.show_net,
        !c.show_disks,
    ensures
        ({
            let after = c.pressed(typing(ch), l);
            let still = |m: ControlsModel| (m, Request::Nothing);
            &&& ch == 'q' || ch == 'Q' ==> after == still(ControlsModel { should_quit: true, ..c })
            &&& ch == 'c' || ch == 'C' ==> after == still(ControlsModel { show_cores: !c.show_cores, ..c })
            &&& ch == 'h' || ch == 'H' ==> after == still(ControlsModel { show_history: !c.show_history, ..c })
            &&& ch == ' ' ==> after == still(ControlsModel { paused: !c.paused, ..c })
            &&& ch == '/' ==> after == still(ControlsModel { searching: true, ..c })
            &&& (ch == 'd' || ch == 'D') && l.disk_on ==> after == (
                ControlsModel { show_disks: true, ..c },
                Request::ScanDisks,
            )
            &&& (ch == 'n' || ch == 'N') && l.system_on ==> after == (
                ControlsModel { show_net: true, ..c },
                Request::ScanNet,
            )
            &&& (ch == 'd' || ch == 'D') && !l.disk_on ==> after == still(c)
            &&& (ch == 'n' || ch == 'N') && !l.system_on ==> after == still(c)
            &&& (ch == '-' || ch == '_') && 200 <= c.interval_ms <= 5000 ==> after == still(
                ControlsModel { interval_ms: (c.interval_ms - 100) as i64, ..c },
            )
            &&& (ch == '+' || ch == '=') && 100 <= c.interval_ms <= 4900 ==> after == still(
                ControlsModel { interval_ms: (c.interval_ms + 100) as i64, ..c },
            )
        }),
{
    lemma_letter_names();
    lemma_letters_tell(ch);
    reveal(main_key);
    reveal(ControlsModel::on_main);
    assert(typing(ch).name() == seq![ch]);
}

/// The letter keys of the process table: `t` shows the tree or the list, `u`
/// one's own processes or all, `p`, `m` and `g` sort by CPU, memory and, where
/// it is shown, GPU, `j` and `k` go a row down and up, and `x` asks whether to
/// kill the selected process.
pub proof fn lemma_table_keys(c: ControlsModel, l: Listing, ch: char)
    requires
        c.kill_pid == 0,
        !c.searching,
        !c.show_net,
        !c.show_disks,
    ensures
        ({
            let after = c.pressed(typing(ch), l);
            let still = |m: ControlsModel| (m, Request::Nothing);
            &&& ch == 't' || ch == 'T' ==> after == still(
                ControlsModel {
                    table: (ProcTableModel { tree: !c.table.tree, ..c.table }).with_rows(l.procs),
                    ..c
                },
            )
            &&& ch == 'u' || ch == 'U' ==> after == still(
                ControlsModel {
                    table: (ProcTableModel { mine_only: !c.table.mine_only, ..c.table }).with_rows(l.procs),
                    ..c
                },
            )
            &&& ch == 'p' || ch == 'P' ==> after == still(c.sorted(ProcSort::Cpu, l.procs))
            &&& ch == 'm' || ch == 'M' ==> after == still(c.sorted(ProcSort::Mem, l.procs))
            &&& (ch == 'g' || ch == 'G') && c.table.show_gpu ==> after == still(c.sorted(ProcSort::Gpu, l.procs))
            &&& (ch == 'g' || ch == 'G') && !c.table.show_gpu ==> after == still(c)
            &&& ch == 'j' ==> after == still(ControlsModel { table: c.table.moved(1), ..c })
            &&& ch == 'k' ==> after == still(ControlsModel { table: c.table.moved(-1), ..c })
            &&& (ch == 'x' || ch == 'X') && c.table.sel_idx < c.table.rows.len() ==> after == still(
                ControlsModel {
                    kill_pid: c.table.rows[c.table.sel_idx as int].pid,
                    kill_name: c.table.rows[c.table.sel_idx as int].command@,
                    ..c
                },
            )
        }),
{
    lemma_letter_names();
    lemma_letters_tell(ch);
    reveal(main_key);
    reveal(table_key);
    reveal(travel);
    reveal(prompt_travel);
    reveal(ControlsModel::on_main);
    reveal(ControlsModel::on_table);
    assert(typing(ch).name() == seq![ch]);
}

/// The letter keys of the network view: `d`, `u` and `t` sort by download,
/// upload and total, `x` asks whether to kill the process of the selected
/// connection, and space pauses there too.
pub proof fn lemma_network_keys(c: ControlsModel, l: Listing, ch: char)
    requires
        c.kill_pid == 0,
        !c.searching,
        c.show_net,
    ensures
        ({
            let after = c.pressed(typing(ch), l);
            let still = |m: ControlsModel| (m, Request::Nothing);
            &&& ch == 'd' || ch == 'D' ==> after == still(
                ControlsModel { nettable: c.nettable.sorted_by(NetSort::Down), ..c },
            )
            &&& ch == 'u' || ch == 'U' ==> after == still(
                ControlsModel { nettable: c.nettable.sorted_by(NetSort::Up), ..c },
            )
            &&& ch == 't' || ch == 'T' ==> after == still(
                ControlsModel { nettable: c.nettable.sorted_by(NetSort::Total), ..c },
            )
            &&& ch == '/' ==> after == still(ControlsModel { searching: true, ..c })
            &&& (ch == 'x' || ch == 'X') && c.nettable.sel_idx < c.nettable.rows.len() ==> after == still(
                ControlsModel {
                    kill_pid: c.nettable.rows[c.nettable.sel_idx as int].pid,
                    kill_name: c.nettable.rows[c.nettable.sel_idx as int].name@,
                    ..c
                },
            )
            &&& ch == ' ' && !c.show_disks ==> after == still(ControlsModel { paused: !c.paused, ..c })
            &&& (ch == 'n' || ch == 'N') && !c.show_disks && l.system_on ==> after == still(
                ControlsModel { show_net: false, ..c },
            )
        }),
{
    lemma_letter_names();
    lemma_letters_tell(ch);
    reveal(list_key);
    reveal(main_key);
    reveal(travel);
    reveal(prompt_travel);
    reveal(ControlsModel::on_main);
    reveal(ControlsModel::on_net);
    assert(typing(ch).name() == seq![ch]);
}

/// The letter keys of the disk view: `r`, `w` and `t` sort by what is read, what
/// is written and both, and `x` asks whether to kill the selected process.
pub proof fn lemma_disk_keys(c: ControlsModel, l: Listing, ch: char)
    requires
        c.kill_pid == 0,
        !c.searching,
        c.show_disks,
        !c.show_net,
    ensures
        ({
            let after = c.pressed(typing(ch), l);
            let still = |m: ControlsModel| (m, Request::Nothing);
            &&& ch == 'r' || ch == 'R' ==> after == still(
                ControlsModel { disktable: c.disktable.sorted_by(DiskSort::Read), ..c },
            )
            &&& ch == 'w' || ch == 'W' ==> after == still(
                ControlsModel { disktable: c.disktable.sorted_by(DiskSort::Write), ..c },
            )
            &&& ch == 't' || ch == 'T' ==> after == still(
                ControlsModel { disktable: c.disktable.sorted_by(DiskSort::Total), ..c },
            )
            &&& ch == '/' ==> after == still(ControlsModel { searching: true, ..c })
            &&& (ch == 'x' || ch == 'X') && c.disktable.sel_idx < c.disktable.rows.len() ==> after == still(
                ControlsModel {
                    kill_pid: c.disktable.rows[c.disktable.sel_idx as int].pid,
                    kill_name: c.disktable.rows[c.disktable.sel_idx as int].name@,
                    ..c
                },
            )
            &&& (ch == 'd' || ch == 'D') && l.disk_on ==> after == still(ControlsModel { show_disks: false, ..c })
        }),
{
    lemma_letter_names();
    lemma_letters_tell(ch);
    reveal(list_key);
    reveal(main_key);
    reveal(travel);
    reveal(prompt_travel);
    reveal(ControlsModel::on_main);
    reveal(ControlsModel::on_disks);
    assert(typing(ch).name() == seq![ch]);
}

/// A click on a row selects it, and the wheel moves the selection of the view on
/// top by three rows.
pub proof fn lemma_mouse(c: ControlsModel, m: MouseEvent, procs: Seq<Process>)
    ensures
        ({
            let after = c.pointed(m, procs);
            let i = c.table.scroll + (m.row - c.table_top);
            let rows = c.table.rows;
            &&& m.kind == MouseEventKind::LeftDown && !c.show_net && !c.show_disks && c.kill_pid == 0 && 0 < c.table_top
                <= m.row < c.table_top + c.table.last_visible && i < rows.len() ==> after.table.sel_idx == i && after.table.sel_pid == rows[i].pid
                && after.table.rows == rows
            &&& m.kind == MouseEventKind::ScrollDown && !c.show_net && !c.show_disks ==> after == (ControlsModel {
                table: c.table.moved(3),
                ..c
            })
            &&& m.kind == MouseEventKind::ScrollUp && !c.show_net && !c.show_disks ==> after == (ControlsModel {
                table: c.table.moved(-3),
                ..c
            })
            &&& m.kind == MouseEventKind::ScrollDown && c.show_net ==> after == (ControlsModel {
                nettable: c.nettable.moved(3),
                ..c
            })
            &&& m.kind == MouseEventKind::ScrollUp && c.show_net ==> after == (ControlsModel {
                nettable: c.nettable.moved(-3),
                ..c
            })
            &&& m.kind == MouseEventKind::ScrollDown && c.show_disks && !c.show_net ==> after == (ControlsModel {
                disktable: c.disktable.moved(3),
                ..c
            })
            &&& m.kind == MouseEventKind::ScrollUp && c.show_disks && !c.show_net ==> after == (ControlsModel {
                disktable: c.disktable.moved(-3),
                ..c
            })
        }),
{
}

/// Once a signal was sent, or could not be, the prompt is gone and the status
/// line says which of it, to which process.
pub proof fn lemma_kill_reported(c: ControlsModel, signal: KillSignal, e: Seq<char>)
    ensures
        c.after_kill(signal, None).kill_pid == 0,
        c.after_kill(signal, Some(e)).kill_pid == 0,
        c.after_kill(signal, None).status == "sent "@ + (if signal == KillSignal::Term {
            "SIGTERM"@
        } else {
            "SIGKILL"@
        }) + " to PID "@ + signed_numeral(c.kill_pid as int),
        c.after_kill(signal, Some(e)).status == "kill "@ + signed_numeral(c.kill_pid as int) + " failed: "@ + e,
        c.after_kill(signal, None).table == c.table,
        c.after_kill(signal, Some(e)).table == c.table,
{
}

} // verus!
