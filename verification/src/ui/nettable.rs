//! A scrolling list of network connections with a movable selection, substring
//! filter and sort column. Rows reorder every refresh; the selection is pinned
//! to its connection, not its slot.

use super::list::{move_place, moved_place, page_delta, scroll_to, scrolled, Travel};
use super::disktable::{name_or_mark, rate_cell, rate_text};
use super::proctable::{direction_mark, selected_ink, selected_style, set_off, set_off_label, sort_mark};
use crate::chars::{group_texts, joined2, joined3, lemma_numeral_digits, lemma_signed_numeral_tells, same, signed_numeral, signed_numeral_of, texts};
use crate::config::{lowercase, lowered};
use crate::metrics::procnet::ProcConn;
use crate::num::value::lemma_order_value;
use crate::num::Num;
use crate::scan::{contains, holds, lemma_found, occurs};
use crate::sort::{
    all_of, arranged, in_order, lemma_arranged_in_order, lemma_arranged_keeps, lemma_arranged_permutes, lemma_filtered,
    lemma_filtered_kind, slot, strict_weak,
};
use crate::style::{Style, BLACK, BLUE, CYAN, GRAY, RED, WHITE};
use crate::text::{fitted, left_aligned, left_pad, pad_truncate, right_aligned, right_pad};
use vstd::prelude::*;
use vstd::string::StringExecFns;

verus! {

/// The style of the header.
pub open spec fn net_header_ink() -> Style {
    Style::on(BLACK, BLUE)
}

/// The style of the sorted column's head.
pub open spec fn net_chip_ink() -> Style {
    Style::on(BLACK, CYAN).strong()
}

fn net_header_style() -> (r: Style)
    ensures
        r == net_header_ink(),
{
    Style::new().fg(BLACK).bg(BLUE)
}

fn net_sort_chip_style() -> (r: Style)
    ensures
        r == net_chip_ink(),
{
    Style::new().fg(BLACK).bg(CYAN).bold()
}

/// The column the network table is ordered by.
#[derive(Clone, Copy, Debug, PartialEq, Eq, Structural)]
pub enum NetSort {
    Total,
    Down,
    Up,
}

impl NetSort {
    /// The name of the column.
    pub open spec fn name(self) -> Seq<char> {
        match self {
            NetSort::Down => "down"@,
            NetSort::Up => "up"@,
            NetSort::Total => "total"@,
        }
    }

    pub fn as_str(self) -> (r: &'static str)
        ensures
            r@ == self.name(),
    {
        match self {
            NetSort::Down => "down",
            NetSort::Up => "up",
            NetSort::Total => "total",
        }
    }
}

/// The rate by which a connection is ranked.
pub open spec fn net_rate(by: NetSort, p: ProcConn) -> Num {
    match by {
        NetSort::Down => p.rx_per_sec,
        NetSort::Up => p.tx_per_sec,
        NetSort::Total => p.rx_per_sec.sum(p.tx_per_sec),
    }
}

fn rate_of(by: NetSort, p: &ProcConn) -> (r: Num)
    ensures
        r == net_rate(by, *p),
{
    match by {
        NetSort::Down => p.rx_per_sec,
        NetSort::Up => p.tx_per_sec,
        NetSort::Total => p.rx_per_sec.plus(p.tx_per_sec),
    }
}

/// Whether the first row stands before the second: by the rate, highest first
/// unless ascending; ties by process number, always ascending.
pub open spec fn net_before(by: NetSort, asc: bool, a: ProcConn, b: ProcConn) -> bool {
    if !net_rate(by, a).same(net_rate(by, b)) {
        net_rate(by, b).less(net_rate(by, a)) != asc
    } else {
        a.pid < b.pid
    }
}

/// The order of the rows.
pub open spec fn net_order(by: NetSort, asc: bool) -> spec_fn(ProcConn, ProcConn) -> bool {
    |a: ProcConn, b: ProcConn| net_before(by, asc, a, b)
}

fn goes_before(by: NetSort, asc: bool, a: &ProcConn, b: &ProcConn) -> (r: bool)
    ensures
        r == net_before(by, asc, *a, *b),
{
    let av = rate_of(by, a);
    let bv = rate_of(by, b);
    if !av.equals(bv) {
        bv.lt(av) != asc
    } else {
        a.pid < b.pid
    }
}

/// Whether a (lower-case) query occurs in a connection's process name, remote end or
/// process number.
pub open spec fn net_found(p: ProcConn, query: Seq<char>) -> bool {
    contains(lowered(p.name@), query) || contains(lowered(p.remote@), query) || contains(
        signed_numeral(p.pid as int),
        query,
    )
}

fn net_matches(p: &ProcConn, query: &str) -> (r: bool)
    ensures
        r == net_found(*p, query@),
{
    holds(lowercase(p.name.as_str()).as_str(), query) || holds(lowercase(p.remote.as_str()).as_str(), query) || holds(
        signed_numeral_of(p.pid as i64).as_str(),
        query,
    )
}

/// The search of a query, taken in lower case. An empty one finds all.
pub open spec fn net_passes(query: Seq<char>) -> spec_fn(ProcConn) -> bool {
    |p: ProcConn| query.len() == 0 || net_found(p, query)
}

/// What tells a connection from the others.
pub open spec fn key_text(c: ProcConn) -> Seq<char> {
    signed_numeral(c.pid as int) + "|"@ + c.remote@
}

fn conn_key(c: &ProcConn) -> (r: String)
    ensures
        r@ == key_text(*c),
{
    joined3(signed_numeral_of(c.pid as i64).as_str(), "|", c.remote.as_str())
}

/// The first row of a connection.
pub open spec fn net_place(rows: Seq<ProcConn>, key: Seq<char>, i: int) -> Option<int>
    decreases rows.len() - i,
{
    if i < 0 || i >= rows.len() {
        None
    } else if key_text(rows[i]) == key {
        Some(i)
    } else {
        net_place(rows, key, i + 1)
    }
}

/// What a network table holds.
pub struct NetTableModel {
    pub sort_by: NetSort,
    pub asc: bool,
    pub search: Seq<char>,
    pub rows: Seq<ProcConn>,
    pub sel_key: Seq<char>,
    pub sel_idx: nat,
    pub scroll: nat,
    pub last_visible: nat,
}

pub struct NetTable {
    pub sort_by: NetSort,
    pub asc: bool,
    pub search: String,
    pub rows: Vec<ProcConn>,
    pub sel_key: String,
    pub sel_idx: usize,
    pub scroll: usize,
    pub last_visible: usize,
}

pub const NET_PID_W: usize = 7;

pub const NET_PROC_W: usize = 16;

pub const NET_RATE_W: usize = 11;

pub const NET_MIN_REMOTE_W: usize = 15;

/// The width of the remote column: what the fixed columns leave.
pub open spec fn remote_cells(w: nat) -> nat {
    if w < 50 + NET_MIN_REMOTE_W {
        NET_MIN_REMOTE_W as nat
    } else {
        (w - 50) as nat
    }
}

fn remote_width(w: usize) -> (r: usize)
    ensures
        r == remote_cells(w as nat),
{
    if w < 50 + NET_MIN_REMOTE_W {
        NET_MIN_REMOTE_W
    } else {
        w - 50
    }
}

/// The number of a row.
pub open spec fn net_pid_cell(c: ProcConn) -> Seq<char> {
    right_aligned(signed_numeral(c.pid as int), NET_PID_W as nat)
}

/// The line of the selected row, unstyled.
pub open spec fn net_plain_line(c: ProcConn, rw: nat) -> Seq<char> {
    net_pid_cell(c) + "  "@ + fitted(name_or_mark(c.name@), NET_PROC_W as nat) + " "@ + fitted(c.remote@, rw) + " "@
        + rate_text(c.rx_per_sec, NET_RATE_W as nat) + " "@ + rate_text(c.tx_per_sec, NET_RATE_W as nat)
}

/// The line of any other row.
pub open spec fn net_line(c: ProcConn, rw: nat) -> Seq<char> {
    Style::ink(GRAY).rendered(net_pid_cell(c)) + "  "@ + Style::ink(WHITE).rendered(
        fitted(name_or_mark(c.name@), NET_PROC_W as nat),
    ) + " "@ + Style::ink(WHITE).rendered(fitted(c.remote@, rw)) + " "@ + Style::ink(RED).rendered(
        rate_text(c.rx_per_sec, NET_RATE_W as nat),
    ) + " "@ + Style::ink(BLUE).rendered(rate_text(c.tx_per_sec, NET_RATE_W as nat))
}

fn row_cells(c: &ProcConn, rw: usize) -> (r: (String, String, String, String, String))
    ensures
        r.0@ == net_pid_cell(*c),
        r.1@ == fitted(name_or_mark(c.name@), NET_PROC_W as nat),
        r.2@ == fitted(c.remote@, rw as nat),
        r.3@ == rate_text(c.rx_per_sec, NET_RATE_W as nat),
        r.4@ == rate_text(c.tx_per_sec, NET_RATE_W as nat),
{
    let pid = left_pad(signed_numeral_of(c.pid as i64).as_str(), NET_PID_W);
    let name = if c.name.as_str().is_empty() {
        pad_truncate("?", NET_PROC_W)
    } else {
        pad_truncate(c.name.as_str(), NET_PROC_W)
    };
    let remote = pad_truncate(c.remote.as_str(), rw);
    let down = rate_cell(c.rx_per_sec, NET_RATE_W);
    let up = rate_cell(c.tx_per_sec, NET_RATE_W);
    (pid, name, remote, down, up)
}

fn plain_line(c: &ProcConn, rw: usize) -> (r: String)
    ensures
        r@ == net_plain_line(*c, rw as nat),
{
    let (pid, name, remote, down, up) = row_cells(c, rw);
    let mut s = pid;
    s.append("  ");
    s.append(name.as_str());
    s.append(" ");
    s.append(remote.as_str());
    s.append(" ");
    s.append(down.as_str());
    s.append(" ");
    s.append(up.as_str());
    s
}

fn row_line(c: &ProcConn, rw: usize) -> (r: String)
    ensures
        r@ == net_line(*c, rw as nat),
{
    let (pid, name, remote, down, up) = row_cells(c, rw);
    let mut s = Style::new().fg(GRAY).render(pid.as_str());
    s.append("  ");
    s.append(Style::new().fg(WHITE).render(name.as_str()).as_str());
    s.append(" ");
    s.append(Style::new().fg(WHITE).render(remote.as_str()).as_str());
    s.append(" ");
    s.append(Style::new().fg(RED).render(down.as_str()).as_str());
    s.append(" ");
    s.append(Style::new().fg(BLUE).render(up.as_str()).as_str());
    s
}

impl NetTableModel {
    /// Where there are rows one is selected, and it is the one remembered.
    pub open spec fn wf(self) -> bool {
        self.rows.len() > 0 ==> self.sel_idx < self.rows.len() && self.sel_key == key_text(
            self.rows[self.sel_idx as int],
        )
    }

    /// An empty table, by total rate.
    pub open spec fn empty() -> NetTableModel {
        NetTableModel {
            sort_by: NetSort::Total,
            asc: false,
            search: seq![],
            rows: seq![],
            sel_key: seq![],
            sel_idx: 0,
            scroll: 0,
            last_visible: 10,
        }
    }

    /// The rows that the search finds, in order.
    pub open spec fn listing(self, all: Seq<ProcConn>) -> Seq<ProcConn> {
        arranged(all.filter(net_passes(lowered(self.search))), net_order(self.sort_by, self.asc))
    }

    /// The table with a fresh snapshot: the selection on the same
    /// connection where it is still listed, else in the same place or the last.
    #[verifier::opaque]
    pub open spec fn with_rows(self, all: Seq<ProcConn>) -> NetTableModel {
        let rows = self.listing(all);
        match net_place(rows, self.sel_key, 0) {
            Some(i) => NetTableModel { rows, sel_idx: i as nat, ..self },
            None => {
                let idx = if self.sel_idx < rows.len() {
                    self.sel_idx
                } else if rows.len() == 0 {
                    0
                } else {
                    (rows.len() - 1) as nat
                };
                NetTableModel {
                    rows,
                    sel_idx: idx,
                    sel_key: if idx < rows.len() {
                        key_text(rows[idx as int])
                    } else {
                        seq![]
                    },
                    ..self
                }
            },
        }
    }

    /// The table with a new search over a snapshot.
    pub open spec fn searching(self, query: Seq<char>, all: Seq<ProcConn>) -> NetTableModel {
        NetTableModel { search: query, ..self }.with_rows(all)
    }

    /// The table by a column: the other way round where it was sorted by it.
    #[verifier::opaque]
    pub open spec fn sorted_by(self, s: NetSort) -> NetTableModel {
        let asc = self.sort_by == s && !self.asc;
        let rows = arranged(self.rows, net_order(s, asc));
        let t = NetTableModel { sort_by: s, asc, rows, ..self };
        match net_place(rows, self.sel_key, 0) {
            Some(i) => NetTableModel { sel_idx: i as nat, ..t },
            None => t,
        }
    }

    /// The selection moved by some rows.
    #[verifier::opaque]
    pub open spec fn moved(self, delta: int) -> NetTableModel {
        if self.rows.len() == 0 {
            self
        } else {
            let idx = moved_place(self.sel_idx as int, delta, self.rows.len() as int);
            NetTableModel { sel_idx: idx as nat, sel_key: key_text(self.rows[idx]), ..self }
        }
    }

    /// The selected connection.
    pub open spec fn selection(self) -> Option<ProcConn> {
        if self.sel_idx < self.rows.len() {
            Some(self.rows[self.sel_idx as int])
        } else {
            None
        }
    }

    /// The head of a column, with the mark where it is sorted.
    pub open spec fn column(self, by: NetSort, head: Seq<char>) -> Seq<char> {
        if self.sort_by == by {
            head + sort_mark(self.asc)
        } else {
            head
        }
    }

    /// The header line.
    pub open spec fn header(self, rw: nat) -> Seq<char> {
        right_aligned("PID"@, NET_PID_W as nat) + "  "@ + left_aligned("PROCESS"@, NET_PROC_W as nat) + " "@ + left_aligned("REMOTE"@, rw) + " "@ + right_aligned(
            self.column(NetSort::Down, "DOWN"@),
            NET_RATE_W as nat,
        ) + " "@ + right_aligned(self.column(NetSort::Up, "UP"@), NET_RATE_W as nat)
    }

    /// The header as it is shown.
    pub open spec fn styled_head(self, w: nat) -> Seq<char> {
        let header = fitted(self.header(remote_cells(w)), w);
        match self.sort_by {
            NetSort::Total => net_header_ink().rendered(header),
            NetSort::Down => set_off(header, self.column(NetSort::Down, "DOWN"@), net_header_ink(), net_chip_ink()),
            NetSort::Up => set_off(
                header,
                self.column(NetSort::Up, "UP"@),
                net_header_ink(),
                net_chip_ink(),
            ),
        }
    }

    /// A row as it is shown.
    pub open spec fn styled_row(self, i: int, w: nat) -> Seq<char> {
        if i == self.sel_idx {
            selected_ink().rendered(fitted(net_plain_line(self.rows[i], remote_cells(w)), w))
        } else {
            net_line(self.rows[i], remote_cells(w))
        }
    }

    /// The table after it has been shown in `h` lines: the selection is in
    /// view.
    pub open spec fn viewed(self, w: nat, h: nat) -> NetTableModel {
        if w < 1 || h < 2 {
            self
        } else {
            let rows = (h - 1) as nat;
            NetTableModel {
                last_visible: rows,
                scroll: scrolled(self.rows.len(), rows, self.sel_idx, self.scroll),
                ..self
            }
        }
    }

    /// How many rows are in view.
    pub open spec fn rows_in_view(self, h: nat) -> nat {
        if self.scroll >= self.rows.len() {
            0
        } else if self.rows.len() - self.scroll < h - 1 {
            (self.rows.len() - self.scroll) as nat
        } else {
            (h - 1) as nat
        }
    }

    /// The lines of a table that has been brought into view: the header, then
    /// as many rows as fit.
    pub open spec fn lines(self, w: nat, h: nat) -> Seq<Seq<char>> {
        if w < 1 || h < 2 {
            seq![]
        } else {
            seq![self.styled_head(w)] + Seq::new(self.rows_in_view(h), |i: int| self.styled_row(self.scroll + i, w))
        }
    }
}

impl NetTable {
    /// What the table shows, as plain values.
    pub open spec fn model(self) -> NetTableModel {
        NetTableModel {
            sort_by: self.sort_by,
            asc: self.asc,
            search: self.search@,
            rows: self.rows@,
            sel_key: self.sel_key@,
            sel_idx: self.sel_idx as nat,
            scroll: self.scroll as nat,
            last_visible: self.last_visible as nat,
        }
    }

    pub fn new() -> (r: NetTable)
        ensures
            r.model() == NetTableModel::empty(),
    {
        let t = NetTable {
            sort_by: NetSort::Total,
            asc: false,
            search: String::new(),
            rows: Vec::new(),
            sel_key: String::new(),
            sel_idx: 0,
            scroll: 0,
            last_visible: 10,
        };
        proof {
            assert(t.search@ =~= seq![]);
            assert(t.rows@ =~= seq![]);
            assert(t.sel_key@ =~= seq![]);
        }
        t
    }

    pub fn set_rows(&mut self, all: &Vec<ProcConn>)
        ensures
            final(self).model() == old(self).model().with_rows(all@),
            final(self).model().wf(),
    {
        let query = lowercase(self.search.as_str());
        let ghost pass = net_passes(query@);
        let ghost order = net_order(self.sort_by, self.asc);
        let mut rows: Vec<ProcConn> = Vec::new();
        let mut i: usize = 0;
        proof {
            reveal(Seq::filter);
            assert(all@.take(0).filter(pass) =~= seq![]);
            assert(rows@ =~= arranged(all@.take(0).filter(pass), order));
        }
        while i < all.len()
            invariant
                i <= all@.len(),
                pass == net_passes(query@),
                order == net_order(self.sort_by, self.asc),
                *self == *old(self),
                rows@ == arranged(all@.take(i as int).filter(pass), order),
            decreases all@.len() - i,
        {
            let p = &all[i];
            let ghost before = all@.take(i as int).filter(pass);
            proof {
                reveal(Seq::filter);
                assert(all@.take(i + 1).drop_last() =~= all@.take(i as int));
                assert(all@.take(i + 1).last() == *p);
            }
            if query.as_str().is_empty() || net_matches(p, query.as_str()) {
                proof {
                    assert(pass(*p));
                    assert(before.push(*p).drop_last() =~= before);
                }
                place_row(&mut rows, p.copy(), self.sort_by, self.asc);
            }
            i = i + 1;
        }
        proof {
            assert(all@.take(all@.len() as int) =~= all@);
        }
        self.rows = rows;
        let n: usize = self.rows.len();
        match self.place() {
            Some(k) => {
                self.sel_idx = k;
            },
            None => {
                if self.sel_idx >= n {
                    self.sel_idx = if n == 0 {
                        0
                    } else {
                        n - 1
                    };
                }
                self.sel_key = if self.sel_idx < n {
                    conn_key(&self.rows[self.sel_idx])
                } else {
                    String::new()
                };
            },
        }
        proof {
            reveal(NetTableModel::with_rows);
            assert(self.model() == old(self).model().with_rows(all@));
            lemma_net_place(self.rows@, old(self).sel_key@, 0);
        }
    }

    /// The first row of the selected connection.
    fn place(&self) -> (r: Option<usize>)
        ensures
            match r {
                Some(k) => k < self.rows@.len() && net_place(self.rows@, self.sel_key@, 0) == Some(k as int),
                None => net_place(self.rows@, self.sel_key@, 0) is None,
            },
    {
        let n: usize = self.rows.len();
        let mut i: usize = 0;
        while i < n && !same(conn_key(&self.rows[i]).as_str(), self.sel_key.as_str())
            invariant
                i <= n,
                n == self.rows@.len(),
                net_place(self.rows@, self.sel_key@, 0) == net_place(self.rows@, self.sel_key@, i as int),
            decreases n - i,
        {
            i = i + 1;
        }
        if i < n {
            Some(i)
        } else {
            None
        }
    }

    pub fn set_search(&mut self, query: &str, conns: &Vec<ProcConn>)
        ensures
            final(self).model() == old(self).model().searching(query@, conns@),
            final(self).model().wf(),
    {
        self.search = query.to_owned();
        proof {
            assert(self.model() == (NetTableModel { search: query@, ..old(self).model() }));
        }
        self.set_rows(conns);
    }

    pub fn set_sort(&mut self, s: NetSort)
        ensures
            final(self).model() == old(self).model().sorted_by(s),
            old(self).model().wf() ==> final(self).model().wf(),
    {
        if self.sort_by == s {
            self.asc = !self.asc;
        } else {
            self.sort_by = s;
            self.asc = false;
        }
        self.rows = sorted(&self.rows, self.sort_by, self.asc);
        match self.place() {
            Some(i) => {
                self.sel_idx = i;
            },
            None => {},
        }
        proof {
            reveal(NetTableModel::sorted_by);
            assert(self.model() == old(self).model().sorted_by(s));
            if old(self).model().wf() {
                lemma_net_sorted(old(self).model(), s);
            }
        }
    }

    pub fn count(&self) -> (r: usize)
        ensures
            r == self.model().rows.len(),
    {
        self.rows.len()
    }

    fn shift(&mut self, delta: i128)
        ensures
            final(self).model() == old(self).model().moved(delta as int),
            old(self).model().wf() ==> final(self).model().wf(),
    {
        proof {
            reveal(NetTableModel::moved);
        }
        let n: usize = self.rows.len();
        if n == 0 {
            return;
        }
        self.sel_idx = move_place(self.sel_idx, delta, n);
        self.sel_key = conn_key(&self.rows[self.sel_idx]);
        proof {
            assert(self.model() == old(self).model().moved(delta as int));
        }
    }

    pub fn move_by(&mut self, delta: i64)
        ensures
            final(self).model() == old(self).model().moved(delta as int),
            old(self).model().wf() ==> final(self).model().wf(),
    {
        self.shift(delta as i128);
    }

    pub fn page(&mut self, dir: i64)
        ensures
            final(self).model() == old(self).model().moved(dir * old(self).last_visible),
            old(self).model().wf() ==> final(self).model().wf(),
    {
        let delta: i128 = page_delta(dir, self.last_visible);
        self.shift(delta);
    }

    pub fn home(&mut self)
        ensures
            final(self).model() == old(self).model().moved(-(old(self).rows@.len() as int)),
            old(self).model().wf() ==> final(self).model().wf(),
    {
        let n: usize = self.rows.len();
        self.shift(-(n as i128));
    }

    pub fn end(&mut self)
        ensures
            final(self).model() == old(self).model().moved(old(self).rows@.len() as int),
            old(self).model().wf() ==> final(self).model().wf(),
    {
        let n: usize = self.rows.len();
        self.shift(n as i128);
    }

    /// Moves the selection.
    pub fn travel(&mut self, t: Travel)
        ensures
            final(self).model() == old(self).model().moved(t.distance(old(self).last_visible as nat, old(self).rows@.len())),
            old(self).model().wf() ==> final(self).model().wf(),
    {
        match t {
            Travel::Down => self.move_by(1),
            Travel::Up => self.move_by(-1),
            Travel::PageDown => self.page(1),
            Travel::PageUp => self.page(-1),
            Travel::Home => self.home(),
            Travel::End => self.end(),
        }
    }

    pub fn selected(&self) -> (r: Option<&ProcConn>)
        ensures
            match r {
                Some(p) => self.model().selection() == Some(*p),
                None => self.model().selection() is None,
            },
    {
        if self.sel_idx < self.rows.len() {
            Some(&self.rows[self.sel_idx])
        } else {
            None
        }
    }

    /// Renders the header plus as many rows as fit into `w` by `h` cells.
    pub fn view(&mut self, w: usize, h: usize) -> (r: Vec<String>)
        ensures
            final(self).model() == old(self).model().viewed(w as nat, h as nat),
            old(self).model().wf() ==> final(self).model().wf(),
            texts(r@) == final(self).model().lines(w as nat, h as nat),
    {
        broadcast use group_texts;

        let mut lines: Vec<String> = Vec::new();
        if w < 1 || h < 2 {
            proof {
                assert(texts(lines@) =~= seq![]);
            }
            return lines;
        }
        let visible: usize = h - 1;
        self.last_visible = visible;
        self.scroll = scroll_to(self.rows.len(), visible, self.sel_idx, self.scroll);
        proof {
            assert(self.model() == old(self).model().viewed(w as nat, h as nat));
        }
        let ghost t = self.model();
        lines.push(self.styled_header(w));
        let n: usize = self.rows.len();
        let count: usize = if self.scroll >= n {
            0
        } else if n - self.scroll < visible {
            n - self.scroll
        } else {
            visible
        };
        let mut i: usize = 0;
        proof {
            assert(texts(lines@) =~= seq![t.styled_head(w as nat)] + Seq::new(
                0,
                |k: int| t.styled_row(t.scroll + k, w as nat),
            ));
        }
        while i < count
            invariant
                i <= count,
                count == t.rows_in_view(h as nat),
                t == self.model(),
                n == self.rows@.len(),
                count > 0 ==> self.scroll + count <= n,
                texts(lines@) == seq![t.styled_head(w as nat)] + Seq::new(
                    i as nat,
                    |k: int| t.styled_row(t.scroll + k, w as nat),
                ),
            decreases count - i,
        {
            broadcast use group_texts;

            let line = self.styled_row(self.scroll + i, w);
            lines.push(line);
            proof {
                assert(texts(lines@) =~= seq![t.styled_head(w as nat)] + Seq::new(
                    (i + 1) as nat,
                    |k: int| t.styled_row(t.scroll + k, w as nat),
                ));
            }
            i = i + 1;
        }
        lines
    }

    fn styled_row(&self, i: usize, w: usize) -> (r: String)
        requires
            i < self.rows@.len(),
        ensures
            r@ == self.model().styled_row(i as int, w as nat),
    {
        let rw = remote_width(w);
        if i == self.sel_idx {
            let line = plain_line(&self.rows[i], rw);
            selected_style().render(pad_truncate(line.as_str(), w).as_str())
        } else {
            row_line(&self.rows[i], rw)
        }
    }

    fn column(&self, by: NetSort, head: &str) -> (r: String)
        ensures
            r@ == self.model().column(by, head@),
    {
        if self.sort_by == by {
            joined2(head, direction_mark(self.asc))
        } else {
            head.to_owned()
        }
    }

    fn header_line(&self, rw: usize) -> (r: String)
        ensures
            r@ == self.model().header(rw as nat),
    {
        let mut s = left_pad("PID", NET_PID_W);
        s.append("  ");
        s.append(right_pad("PROCESS", NET_PROC_W).as_str());
        s.append(" ");
        s.append(right_pad("REMOTE", rw).as_str());
        s.append(" ");
        s.append(left_pad(self.column(NetSort::Down, "DOWN").as_str(), NET_RATE_W).as_str());
        s.append(" ");
        s.append(left_pad(self.column(NetSort::Up, "UP").as_str(), NET_RATE_W).as_str());
        s
    }

    fn styled_header(&self, w: usize) -> (r: String)
        ensures
            r@ == self.model().styled_head(w as nat),
    {
        let header = pad_truncate(self.header_line(remote_width(w)).as_str(), w);
        let label = match self.sort_by {
            NetSort::Total => {
                return net_header_style().render(header.as_str());
            },
            NetSort::Down => self.column(NetSort::Down, "DOWN"),
            NetSort::Up => self.column(NetSort::Up, "UP"),
        };
        set_off_label(header.as_str(), label.as_str(), net_header_style(), net_sort_chip_style())
    }
}

/// Puts a row behind those that it does not stand before.
fn place_row(rows: &mut Vec<ProcConn>, x: ProcConn, by: NetSort, asc: bool)
    ensures
        final(rows)@ == old(rows)@.insert(slot(old(rows)@, x, net_order(by, asc)), x),
{
    let ghost before = rows@;
    let ghost order = net_order(by, asc);
    let mut at: usize = rows.len();
    proof {
        assert(before.take(at as int) =~= before);
    }
    while at > 0 && goes_before(by, asc, &x, &rows[at - 1])
        invariant
            at <= rows@.len(),
            rows@ == before,
            order == net_order(by, asc),
            slot(before, x, order) == slot(before.take(at as int), x, order),
        decreases at,
    {
        proof {
            assert(before.take(at as int).drop_last() =~= before.take(at - 1));
        }
        at = at - 1;
    }
    proof {
        if at > 0 {
            assert(before.take(at as int).last() == before[at - 1]);
        }
    }
    rows.insert(at, x);
}

/// The rows in order.
fn sorted(rows: &Vec<ProcConn>, by: NetSort, asc: bool) -> (r: Vec<ProcConn>)
    ensures
        r@ == arranged(rows@, net_order(by, asc)),
{
    let mut out: Vec<ProcConn> = Vec::new();
    let mut i: usize = 0;
    proof {
        assert(rows@.take(0) =~= seq![]);
        assert(out@ =~= arranged(rows@.take(0), net_order(by, asc)));
    }
    while i < rows.len()
        invariant
            i <= rows@.len(),
            out@ == arranged(rows@.take(i as int), net_order(by, asc)),
        decreases rows@.len() - i,
    {
        proof {
            assert(rows@.take(i + 1).drop_last() =~= rows@.take(i as int));
        }
        place_row(&mut out, rows[i].copy(), by, asc);
        i = i + 1;
    }
    proof {
        assert(rows@.take(rows@.len() as int) =~= rows@);
    }
    out
}

proof fn lemma_net_place(rows: Seq<ProcConn>, key: Seq<char>, i: int)
    requires
        0 <= i <= rows.len(),
    ensures
        match net_place(rows, key, i) {
            Some(k) => i <= k < rows.len() && key_text(rows[k]) == key,
            None => forall|k: int| i <= k < rows.len() ==> key_text(#[trigger] rows[k]) != key,
        },
    decreases rows.len() - i,
{
    if i < rows.len() && key_text(rows[i]) != key {
        lemma_net_place(rows, key, i + 1);
    }
}

/// Whether two rows are the same connection: of one process, to one remote end.
pub open spec fn same_conn(a: ProcConn, b: ProcConn) -> bool {
    a.pid == b.pid && a.remote@ == b.remote@
}

/// Different connections have different keys.
pub proof fn lemma_keys_tell(a: ProcConn, b: ProcConn)
    ensures
        key_text(a) == key_text(b) <==> same_conn(a, b),
{
    reveal_strlit("|");
    let m = signed_numeral(a.pid as int);
    let n = signed_numeral(b.pid as int);
    lemma_no_bar(a.pid as int);
    lemma_no_bar(b.pid as int);
    if key_text(a) == key_text(b) {
        assert(key_text(a)[m.len() as int] == '|');
        assert(key_text(b)[n.len() as int] == '|');
        if m.len() < n.len() {
            assert(key_text(b)[m.len() as int] == n[m.len() as int]);
        }
        if n.len() < m.len() {
            assert(key_text(a)[n.len() as int] == m[n.len() as int]);
        }
        assert(m =~= key_text(a).take(m.len() as int));
        assert(n =~= key_text(b).take(n.len() as int));
        lemma_signed_numeral_tells(a.pid as int, b.pid as int);
        assert(a.remote@ =~= key_text(a).skip(m.len() + 1int));
        assert(b.remote@ =~= key_text(b).skip(n.len() + 1int));
    }
}

/// A numeral holds no bar.
proof fn lemma_no_bar(n: int)
    ensures
        forall|i: int| 0 <= i < signed_numeral(n).len() ==> #[trigger] signed_numeral(n)[i] != '|',
{
    lemma_numeral_digits(if n < 0 {
        (-n) as nat
    } else {
        n as nat
    });
}

/// Sorting leaves the selection on its connection.
proof fn lemma_net_sorted(t: NetTableModel, s: NetSort)
    requires
        t.wf(),
    ensures
        t.sorted_by(s).wf(),
        t.sorted_by(s).rows.len() == t.rows.len(),
        t.selection() matches Some(c) ==> t.sorted_by(s).selection() is Some && same_conn(
            t.sorted_by(s).selection()->0,
            c,
        ),
{
    reveal(NetTableModel::sorted_by);
    let u = t.sorted_by(s);
    let before = net_order(s, u.asc);
    lemma_arranged_permutes(t.rows, before);
    lemma_net_place(u.rows, t.sel_key, 0);
    if t.rows.len() > 0 {
        let c = t.rows[t.sel_idx as int];
        assert(t.rows.contains(c));
        lemma_arranged_keeps(t.rows, before, c);
        assert(u.rows.contains(c));
        lemma_keys_tell(u.rows[u.sel_idx as int], c);
    }
}

/// A fresh snapshot leaves the selection on its connection where the search
/// still finds that, else in the same place, or on the last row where that is
/// no longer one. Nothing is selected exactly where no row is listed. Sorting
/// leaves the selection on its connection, and moving and showing leave a row
/// selected and its connection remembered.
pub proof fn lemma_net_selection_pinned(
    t: NetTableModel,
    all: Seq<ProcConn>,
    s: NetSort,
    delta: int,
    w: nat,
    h: nat,
)
    requires
        t.wf(),
    ensures
        ({
            let u = t.with_rows(all);
            &&& u.wf()
            &&& u.selection() is None <==> u.rows.len() == 0
            &&& t.selection() matches Some(c) ==> if exists|d: ProcConn| #[trigger]
                all.contains(d) && same_conn(d, c) && net_passes(lowered(t.search))(d) {
                u.selection() is Some && same_conn(u.selection()->0, c)
            } else {
                u.rows.len() > 0 ==> u.sel_idx == if t.sel_idx < u.rows.len() {
                    t.sel_idx as int
                } else {
                    u.rows.len() - 1
                }
            }
        }),
        ({
            let v = t.sorted_by(s);
            &&& v.wf()
            &&& v.rows.len() == t.rows.len()
            &&& t.selection() matches Some(c) ==> v.selection() is Some && same_conn(v.selection()->0, c)
        }),
        NetTableModel::empty().wf(),
        t.moved(delta).wf(),
        t.viewed(w, h).wf(),
        t.viewed(w, h).selection() == t.selection(),
{
    reveal(NetTableModel::with_rows);
    reveal(NetTableModel::moved);
    let u = t.with_rows(all);
    let pass = net_passes(lowered(t.search));
    let before = net_order(t.sort_by, t.asc);
    lemma_net_place(u.rows, t.sel_key, 0);
    assert forall|d: ProcConn| u.rows.contains(d) == (all.contains(d) && pass(d)) by {
        lemma_filtered(all, pass, d);
        lemma_arranged_keeps(all.filter(pass), before, d);
    }
    assert forall|k: int| 0 <= k < u.rows.len() implies all.contains(#[trigger] u.rows[k]) && pass(u.rows[k]) by {
        assert(u.rows.contains(u.rows[k]));
    }
    if t.rows.len() > 0 {
        let c = t.rows[t.sel_idx as int];
        assert forall|d: ProcConn| key_text(d) == key_text(c) <==> #[trigger] same_conn(d, c) by {
            lemma_keys_tell(d, c);
        }
        if u.rows.len() > 0 {
            assert(same_conn(u.rows[u.sel_idx as int], c) <==> u.sel_key == t.sel_key);
        }
    }
    lemma_net_sorted(t, s);
}

/// A row whose rates are numbers.
pub open spec fn net_measured() -> spec_fn(ProcConn) -> bool {
    |p: ProcConn| !p.rx_per_sec.nan() && !p.tx_per_sec.nan() && !p.rx_per_sec.sum(p.tx_per_sec).nan()
}

/// The rows are those that the search finds, ordered by the sorted column.
pub proof fn lemma_net_rows(t: NetTableModel, all: Seq<ProcConn>, p: ProcConn)
    requires
        all_of(all, net_measured()),
    ensures
        in_order(t.listing(all), net_order(t.sort_by, t.asc)),
        t.listing(all).contains(p) == (all.contains(p) && net_passes(lowered(t.search))(p)),
        t.listing(all).to_multiset() == all.filter(net_passes(lowered(t.search))).to_multiset(),
{
    let before = net_order(t.sort_by, t.asc);
    let pass = net_passes(lowered(t.search));
    let rows = all.filter(pass);
    lemma_filtered_kind(all, pass, net_measured());
    assert(strict_weak(net_measured(), before));
    lemma_arranged_in_order(rows, net_measured(), before);
    lemma_filtered(all, pass, p);
    lemma_arranged_keeps(rows, before, p);
    lemma_arranged_permutes(rows, before);
}

/// The rows stand by the chosen rate, highest first, or lowest first where the
/// order is turned round. Rows that tie stand by process number, lowest first
/// either way.
pub proof fn lemma_net_ranked(t: NetTableModel, all: Seq<ProcConn>, i: int, j: int)
    requires
        all_of(all, net_measured()),
        0 <= i < j < t.listing(all).len(),
        all_of(t.listing(all), |p: ProcConn| p.rx_per_sec.finite() && p.tx_per_sec.finite() && p.rx_per_sec.sum(p.tx_per_sec).finite()),
    ensures
        ({
            let a = t.listing(all)[i];
            let b = t.listing(all)[j];
            let x = match t.sort_by {
                NetSort::Down => a.rx_per_sec.value(),
                NetSort::Up => a.tx_per_sec.value(),
                NetSort::Total => a.rx_per_sec.sum(a.tx_per_sec).value(),
            };
            let y = match t.sort_by {
                NetSort::Down => b.rx_per_sec.value(),
                NetSort::Up => b.tx_per_sec.value(),
                NetSort::Total => b.rx_per_sec.sum(b.tx_per_sec).value(),
            };
            &&& t.asc ==> x <= y
            &&& !t.asc ==> x >= y
            &&& x == y ==> a.pid <= b.pid
        }),
{
    let a = t.listing(all)[i];
    let b = t.listing(all)[j];
    lemma_net_rows(t, all, a);
    assert(!net_order(t.sort_by, t.asc)(b, a));
    assert(!net_before(t.sort_by, t.asc, b, a));
    lemma_order_value(net_rate(t.sort_by, a), net_rate(t.sort_by, b));
    lemma_order_value(net_rate(t.sort_by, b), net_rate(t.sort_by, a));
}

/// A connection is listed where the search, without regard to case, occurs in
/// its process's name, its remote end or its process number. No other is.
pub proof fn lemma_net_searched(t: NetTableModel, all: Seq<ProcConn>, p: ProcConn)
    requires
        all_of(all, net_measured()),
    ensures
        t.listing(all).contains(p) == ({
            let q = lowered(t.search);
            &&& all.contains(p)
            &&& occurs(lowered(p.name@), q) || occurs(lowered(p.remote@), q) || occurs(signed_numeral(p.pid as int), q)
        }),
{
    let q = lowered(t.search);
    lemma_net_rows(t, all, p);
    lemma_found(lowered(p.name@), q);
    lemma_found(lowered(p.remote@), q);
    lemma_found(signed_numeral(p.pid as int), q);
    if q.len() == 0 {
        assert(lowered(p.name@).subrange(0, 0 + q.len() as int) =~= q);
    }
}

} // verus!
