//! A scrolling list of processes ranked by live disk I/O, with a movable
//! selection, substring filter and sort column.

use super::list::{move_place, moved_place, page_delta, scroll_to, scrolled, Travel};
use super::proctable::{direction_mark, selected_ink, selected_style, set_off, set_off_label, sort_mark};
use crate::chars::{group_texts, joined2, signed_numeral, signed_numeral_of, texts};
use crate::config::{lowercase, lowered};
use crate::metrics::procdisk::ProcIO;
use crate::num::value::lemma_order_value;
use crate::num::Num;
use crate::scan::{contains, holds, lemma_found, occurs};
use crate::sort::{
    all_of, arranged, in_order, lemma_arranged_in_order, lemma_arranged_keeps, lemma_arranged_permutes, lemma_filtered,
    lemma_filtered_kind, slot, strict_weak,
};
use crate::style::{Style, BLACK, BLUE, CYAN, GRAY, PURPLE, WHITE};
use crate::text::{bytes_text, fitted, format_bytes, left_aligned, left_pad, pad_truncate, right_aligned, right_pad};
use vstd::prelude::*;
use vstd::string::StringExecFns;

verus! {

/// The style of the header.
pub open spec fn disk_header_ink() -> Style {
    Style::on(BLACK, CYAN)
}

/// The style of the sorted column's head.
pub open spec fn disk_chip_ink() -> Style {
    Style::on(BLACK, BLUE).strong()
}

fn disk_header_style() -> (r: Style)
    ensures
        r == disk_header_ink(),
{
    Style::new().fg(BLACK).bg(CYAN)
}

fn disk_sort_chip_style() -> (r: Style)
    ensures
        r == disk_chip_ink(),
{
    Style::new().fg(BLACK).bg(BLUE).bold()
}

pub fn disk_read_style() -> (r: Style)
    ensures
        r == Style::ink(CYAN),
{
    Style::new().fg(CYAN)
}

pub fn disk_write_style() -> (r: Style)
    ensures
        r == Style::ink(PURPLE),
{
    Style::new().fg(PURPLE)
}

/// The column the disk table is ordered by.
#[derive(Clone, Copy, Debug, PartialEq, Eq, Structural)]
pub enum DiskSort {
    Total,
    Read,
    Write,
}

impl DiskSort {
    /// The name of the column.
    pub open spec fn name(self) -> Seq<char> {
        match self {
            DiskSort::Read => "read"@,
            DiskSort::Write => "write"@,
            DiskSort::Total => "total"@,
        }
    }

    pub fn as_str(self) -> (r: &'static str)
        ensures
            r@ == self.name(),
    {
        match self {
            DiskSort::Read => "read",
            DiskSort::Write => "write",
            DiskSort::Total => "total",
        }
    }
}

/// The rate by which a process is ranked.
pub open spec fn disk_rate(by: DiskSort, p: ProcIO) -> Num {
    match by {
        DiskSort::Read => p.read_per_sec,
        DiskSort::Write => p.write_per_sec,
        DiskSort::Total => p.read_per_sec.sum(p.write_per_sec),
    }
}

fn rate_of(by: DiskSort, p: &ProcIO) -> (r: Num)
    ensures
        r == disk_rate(by, *p),
{
    match by {
        DiskSort::Read => p.read_per_sec,
        DiskSort::Write => p.write_per_sec,
        DiskSort::Total => p.read_per_sec.plus(p.write_per_sec),
    }
}

/// Whether the first row stands before the second: by the rate, highest first
/// unless ascending; ties by process number, always ascending.
pub open spec fn disk_before(by: DiskSort, asc: bool, a: ProcIO, b: ProcIO) -> bool {
    if !disk_rate(by, a).same(disk_rate(by, b)) {
        disk_rate(by, b).less(disk_rate(by, a)) != asc
    } else {
        a.pid < b.pid
    }
}

/// The order of the rows.
pub open spec fn disk_order(by: DiskSort, asc: bool) -> spec_fn(ProcIO, ProcIO) -> bool {
    |a: ProcIO, b: ProcIO| disk_before(by, asc, a, b)
}

fn goes_before(by: DiskSort, asc: bool, a: &ProcIO, b: &ProcIO) -> (r: bool)
    ensures
        r == disk_before(by, asc, *a, *b),
{
    let av = rate_of(by, a);
    let bv = rate_of(by, b);
    if !av.equals(bv) {
        bv.lt(av) != asc
    } else {
        a.pid < b.pid
    }
}

/// Whether a (lower-case) query occurs in a process's name or number.
pub open spec fn disk_found(p: ProcIO, query: Seq<char>) -> bool {
    contains(lowered(p.name@), query) || contains(signed_numeral(p.pid as int), query)
}

fn disk_matches(p: &ProcIO, query: &str) -> (r: bool)
    ensures
        r == disk_found(*p, query@),
{
    holds(lowercase(p.name.as_str()).as_str(), query) || holds(signed_numeral_of(p.pid as i64).as_str(), query)
}

/// The search of a query, taken in lower case. An empty one finds all.
pub open spec fn disk_passes(query: Seq<char>) -> spec_fn(ProcIO) -> bool {
    |p: ProcIO| query.len() == 0 || disk_found(p, query)
}

/// The first row of a process.
pub open spec fn disk_place(rows: Seq<ProcIO>, pid: i32, i: int) -> Option<int>
    decreases rows.len() - i,
{
    if i < 0 || i >= rows.len() {
        None
    } else if rows[i].pid == pid {
        Some(i)
    } else {
        disk_place(rows, pid, i + 1)
    }
}

/// What a disk table holds.
pub struct DiskTableModel {
    pub sort_by: DiskSort,
    pub asc: bool,
    pub search: Seq<char>,
    pub rows: Seq<ProcIO>,
    pub sel_pid: i32,
    pub sel_idx: nat,
    pub scroll: nat,
    pub last_visible: nat,
}

pub struct DiskTable {
    pub sort_by: DiskSort,
    pub asc: bool,
    pub search: String,
    pub rows: Vec<ProcIO>,
    pub sel_pid: i32,
    pub sel_idx: usize,
    pub scroll: usize,
    pub last_visible: usize,
}

pub const DISK_PID_W: usize = 7;

pub const DISK_RATE_W: usize = 12;

pub const DISK_MIN_PROC_W: usize = 12;

/// The width of the name column: what the fixed columns leave.
pub open spec fn name_cells(w: nat) -> nat {
    if w < 35 + DISK_MIN_PROC_W {
        DISK_MIN_PROC_W as nat
    } else {
        (w - 35) as nat
    }
}

fn proc_width(w: usize) -> (r: usize)
    ensures
        r == name_cells(w as nat),
{
    if w < 35 + DISK_MIN_PROC_W {
        DISK_MIN_PROC_W
    } else {
        w - 35
    }
}

/// A rate, in whole bytes, as it is shown.
pub open spec fn rate_text(rate: Num, width: nat) -> Seq<char> {
    right_aligned(bytes_text(rate.truncated(u64::MAX as nat)) + "/s"@, width)
}

/// A rate, in whole bytes, as it is shown.
pub fn rate_cell(rate: Num, width: usize) -> (r: String)
    ensures
        r@ == rate_text(rate, width as nat),
{
    let s = joined2(format_bytes(rate.to_u64()).as_str(), "/s");
    left_pad(s.as_str(), width)
}

/// A name, or a question mark where there is none.
pub open spec fn name_or_mark(name: Seq<char>) -> Seq<char> {
    if name.len() == 0 {
        "?"@
    } else {
        name
    }
}

/// The cells of a row.
pub open spec fn disk_pid_cell(p: ProcIO) -> Seq<char> {
    right_aligned(signed_numeral(p.pid as int), DISK_PID_W as nat)
}

/// The line of the selected row, unstyled.
pub open spec fn disk_plain_line(p: ProcIO, pw: nat) -> Seq<char> {
    disk_pid_cell(p) + "  "@ + fitted(name_or_mark(p.name@), pw) + " "@ + rate_text(p.read_per_sec, DISK_RATE_W as nat)
        + " "@ + rate_text(p.write_per_sec, DISK_RATE_W as nat)
}

/// The line of any other row.
pub open spec fn disk_line(p: ProcIO, pw: nat) -> Seq<char> {
    Style::ink(GRAY).rendered(disk_pid_cell(p)) + "  "@ + Style::ink(WHITE).rendered(fitted(name_or_mark(p.name@), pw))
        + " "@ + Style::ink(CYAN).rendered(rate_text(p.read_per_sec, DISK_RATE_W as nat)) + " "@ + Style::ink(
        PURPLE,
    ).rendered(rate_text(p.write_per_sec, DISK_RATE_W as nat))
}

fn row_cells(p: &ProcIO, pw: usize) -> (r: (String, String, String, String))
    ensures
        r.0@ == disk_pid_cell(*p),
        r.1@ == fitted(name_or_mark(p.name@), pw as nat),
        r.2@ == rate_text(p.read_per_sec, DISK_RATE_W as nat),
        r.3@ == rate_text(p.write_per_sec, DISK_RATE_W as nat),
{
    let pid = left_pad(signed_numeral_of(p.pid as i64).as_str(), DISK_PID_W);
    let name = if p.name.as_str().is_empty() {
        pad_truncate("?", pw)
    } else {
        pad_truncate(p.name.as_str(), pw)
    };
    let read = rate_cell(p.read_per_sec, DISK_RATE_W);
    let write = rate_cell(p.write_per_sec, DISK_RATE_W);
    (pid, name, read, write)
}

fn plain_line(p: &ProcIO, pw: usize) -> (r: String)
    ensures
        r@ == disk_plain_line(*p, pw as nat),
{
    let (pid, name, read, write) = row_cells(p, pw);
    let mut s = pid;
    s.append("  ");
    s.append(name.as_str());
    s.append(" ");
    s.append(read.as_str());
    s.append(" ");
    s.append(write.as_str());
    s
}

fn row_line(p: &ProcIO, pw: usize) -> (r: String)
    ensures
        r@ == disk_line(*p, pw as nat),
{
    let (pid, name, read, write) = row_cells(p, pw);
    let mut s = Style::new().fg(GRAY).render(pid.as_str());
    s.append("  ");
    s.append(Style::new().fg(WHITE).render(name.as_str()).as_str());
    s.append(" ");
    s.append(disk_read_style().render(read.as_str()).as_str());
    s.append(" ");
    s.append(disk_write_style().render(write.as_str()).as_str());
    s
}

impl DiskTableModel {
    /// Where there are rows one is selected, and it is the one remembered.
    pub open spec fn wf(self) -> bool {
        self.rows.len() > 0 ==> self.sel_idx < self.rows.len() && self.sel_pid == self.rows[self.sel_idx as int].pid
    }

    /// An empty table, by total rate.
    pub open spec fn empty() -> DiskTableModel {
        DiskTableModel {
            sort_by: DiskSort::Total,
            asc: false,
            search: seq![],
            rows: seq![],
            sel_pid: 0,
            sel_idx: 0,
            scroll: 0,
            last_visible: 10,
        }
    }

    /// The rows that the search finds, in order.
    pub open spec fn listing(self, all: Seq<ProcIO>) -> Seq<ProcIO> {
        arranged(all.filter(disk_passes(lowered(self.search))), disk_order(self.sort_by, self.asc))
    }

    /// The table with a fresh snapshot: the selection on the same process
    /// where it is still listed, else in the same place or the last.
    #[verifier::opaque]
    pub open spec fn with_rows(self, all: Seq<ProcIO>) -> DiskTableModel {
        let rows = self.listing(all);
        match disk_place(rows, self.sel_pid, 0) {
            Some(i) => DiskTableModel { rows, sel_idx: i as nat, ..self },
            None => {
                let idx = if self.sel_idx < rows.len() {
                    self.sel_idx
                } else if rows.len() == 0 {
                    0
                } else {
                    (rows.len() - 1) as nat
                };
                DiskTableModel {
                    rows,
                    sel_idx: idx,
                    sel_pid: if idx < rows.len() {
                        rows[idx as int].pid
                    } else {
                        0
                    },
                    ..self
                }
            },
        }
    }

    /// The table with a new search over a snapshot.
    pub open spec fn searching(self, query: Seq<char>, all: Seq<ProcIO>) -> DiskTableModel {
        DiskTableModel { search: query, ..self }.with_rows(all)
    }

    /// The table by a column: the other way round where it was sorted by it.
    #[verifier::opaque]
    pub open spec fn sorted_by(self, s: DiskSort) -> DiskTableModel {
        let asc = self.sort_by == s && !self.asc;
        let rows = arranged(self.rows, disk_order(s, asc));
        let t = DiskTableModel { sort_by: s, asc, rows, ..self };
        match disk_place(rows, self.sel_pid, 0) {
            Some(i) => DiskTableModel { sel_idx: i as nat, ..t },
            None => t,
        }
    }

    /// The selection moved by some rows.
    #[verifier::opaque]
    pub open spec fn moved(self, delta: int) -> DiskTableModel {
        if self.rows.len() == 0 {
            self
        } else {
            let idx = moved_place(self.sel_idx as int, delta, self.rows.len() as int);
            DiskTableModel { sel_idx: idx as nat, sel_pid: self.rows[idx].pid, ..self }
        }
    }

    /// The selected process.
    pub open spec fn selection(self) -> Option<ProcIO> {
        if self.sel_idx < self.rows.len() {
            Some(self.rows[self.sel_idx as int])
        } else {
            None
        }
    }

    /// The head of a column, with the mark where it is sorted.
    pub open spec fn column(self, by: DiskSort, head: Seq<char>) -> Seq<char> {
        if self.sort_by == by {
            head + sort_mark(self.asc)
        } else {
            head
        }
    }

    /// The header line.
    pub open spec fn header(self, pw: nat) -> Seq<char> {
        right_aligned("PID"@, DISK_PID_W as nat) + "  "@ + left_aligned("PROCESS"@, pw) + " "@ + right_aligned(
            self.column(DiskSort::Read, "READ"@),
            DISK_RATE_W as nat,
        ) + " "@ + right_aligned(self.column(DiskSort::Write, "WRITE"@), DISK_RATE_W as nat)
    }

    /// The header as it is shown.
    pub open spec fn styled_head(self, w: nat) -> Seq<char> {
        let header = fitted(self.header(name_cells(w)), w);
        match self.sort_by {
            DiskSort::Total => disk_header_ink().rendered(header),
            DiskSort::Read => set_off(header, self.column(DiskSort::Read, "READ"@), disk_header_ink(), disk_chip_ink()),
            DiskSort::Write => set_off(
                header,
                self.column(DiskSort::Write, "WRITE"@),
                disk_header_ink(),
                disk_chip_ink(),
            ),
        }
    }

    /// A row as it is shown.
    pub open spec fn styled_row(self, i: int, w: nat) -> Seq<char> {
        if i == self.sel_idx {
            selected_ink().rendered(fitted(disk_plain_line(self.rows[i], name_cells(w)), w))
        } else {
            disk_line(self.rows[i], name_cells(w))
        }
    }

    /// The table after it has been shown in `h` lines: the selection is in
    /// view.
    pub open spec fn viewed(self, w: nat, h: nat) -> DiskTableModel {
        if w < 1 || h < 2 {
            self
        } else {
            let rows = (h - 1) as nat;
            DiskTableModel {
                last_visible: rows,
                scroll: scrolled(self.rows.len(), rows, self.sel_idx, self.scroll),
                ..self
            }
        }
    }

    /// How many rows are in view.
    pub open spec fn rows_in_view(self, h: nat) -> nat {
        if self.scroll >= self.rows.len() {
            0
        } else if self.rows.len() - self.scroll < h - 1 {
            (self.rows.len() - self.scroll) as nat
        } else {
            (h - 1) as nat
        }
    }

    /// The lines of a table that has been brought into view: the header, then
    /// as many rows as fit.
    pub open spec fn lines(self, w: nat, h: nat) -> Seq<Seq<char>> {
        if w < 1 || h < 2 {
            seq![]
        } else {
            seq![self.styled_head(w)] + Seq::new(self.rows_in_view(h), |i: int| self.styled_row(self.scroll + i, w))
        }
    }
}

impl DiskTable {
    /// What the table shows, as plain values.
    pub open spec fn model(self) -> DiskTableModel {
        DiskTableModel {
            sort_by: self.sort_by,
            asc: self.asc,
            search: self.search@,
            rows: self.rows@,
            sel_pid: self.sel_pid,
            sel_idx: self.sel_idx as nat,
            scroll: self.scroll as nat,
            last_visible: self.last_visible as nat,
        }
    }

    pub fn new() -> (r: DiskTable)
        ensures
            r.model() == DiskTableModel::empty(),
    {
        let t = DiskTable {
            sort_by: DiskSort::Total,
            asc: false,
            search: String::new(),
            rows: Vec::new(),
            sel_pid: 0,
            sel_idx: 0,
            scroll: 0,
            last_visible: 10,
        };
        proof {
            assert(t.search@ =~= seq![]);
            assert(t.rows@ =~= seq![]);
        }
        t
    }

    pub fn set_rows(&mut self, all: &Vec<ProcIO>)
        ensures
            final(self).model() == old(self).model().with_rows(all@),
            final(self).model().wf(),
    {
        let query = lowercase(self.search.as_str());
        let ghost pass = disk_passes(query@);
        let ghost order = disk_order(self.sort_by, self.asc);
        let mut rows: Vec<ProcIO> = Vec::new();
        let mut i: usize = 0;
        proof {
            reveal(Seq::filter);
            assert(all@.take(0).filter(pass) =~= seq![]);
            assert(rows@ =~= arranged(all@.take(0).filter(pass), order));
        }
        while i < all.len()
            invariant
                i <= all@.len(),
                pass == disk_passes(query@),
                order == disk_order(self.sort_by, self.asc),
                *self == *old(self),
                rows@ == arranged(all@.take(i as int).filter(pass), order),
            decreases all@.len() - i,
        {
            let p = &all[i];
            let ghost before = all@.take(i as int).filter(pass);
            proof {
                reveal(Seq::filter);
                assert(all@.take(i + 1).drop_last() =~= all@.take(i as int));
                assert(all@.take(i + 1).last() == *p);
            }
            if query.as_str().is_empty() || disk_matches(p, query.as_str()) {
                proof {
                    assert(pass(*p));
                    assert(before.push(*p).drop_last() =~= before);
                }
                place_row(&mut rows, p.copy(), self.sort_by, self.asc);
            }
            i = i + 1;
        }
        proof {
            assert(all@.take(all@.len() as int) =~= all@);
        }
        self.rows = rows;
        let n: usize = self.rows.len();
        match self.place(self.sel_pid) {
            Some(k) => {
                self.sel_idx = k;
            },
            None => {
                if self.sel_idx >= n {
                    self.sel_idx = if n == 0 {
                        0
                    } else {
                        n - 1
                    };
                }
                self.sel_pid = if self.sel_idx < n {
                    self.rows[self.sel_idx].pid
                } else {
                    0
                };
            },
        }
        proof {
            reveal(DiskTableModel::with_rows);
            assert(self.model() == old(self).model().with_rows(all@));
            lemma_disk_place(self.rows@, old(self).sel_pid, 0);
        }
    }

    /// The first row of a process.
    fn place(&self, pid: i32) -> (r: Option<usize>)
        ensures
            match r {
                Some(k) => k < self.rows@.len() && disk_place(self.rows@, pid, 0) == Some(k as int),
                None => disk_place(self.rows@, pid, 0) is None,
            },
    {
        let n: usize = self.rows.len();
        let mut i: usize = 0;
        while i < n && self.rows[i].pid != pid
            invariant
                i <= n,
                n == self.rows@.len(),
                disk_place(self.rows@, pid, 0) == disk_place(self.rows@, pid, i as int),
            decreases n - i,
        {
            i = i + 1;
        }
        if i < n {
            Some(i)
        } else {
            None
        }
    }

    pub fn set_search(&mut self, query: &str, procs: &Vec<ProcIO>)
        ensures
            final(self).model() == old(self).model().searching(query@, procs@),
            final(self).model().wf(),
    {
        self.search = query.to_owned();
        proof {
            assert(self.model() == (DiskTableModel { search: query@, ..old(self).model() }));
        }
        self.set_rows(procs);
    }

    pub fn set_sort(&mut self, s: DiskSort)
        ensures
            final(self).model() == old(self).model().sorted_by(s),
            old(self).model().wf() ==> final(self).model().wf(),
    {
        if self.sort_by == s {
            self.asc = !self.asc;
        } else {
            self.sort_by = s;
            self.asc = false;
        }
        self.rows = sorted(&self.rows, self.sort_by, self.asc);
        match self.place(self.sel_pid) {
            Some(i) => {
                self.sel_idx = i;
            },
            None => {},
        }
        proof {
            reveal(DiskTableModel::sorted_by);
            assert(self.model() == old(self).model().sorted_by(s));
            if old(self).model().wf() {
                lemma_disk_sorted(old(self).model(), s);
            }
        }
    }

    pub fn count(&self) -> (r: usize)
        ensures
            r == self.model().rows.len(),
    {
        self.rows.len()
    }

    fn shift(&mut self, delta: i128)
        ensures
            final(self).model() == old(self).model().moved(delta as int),
            old(self).model().wf() ==> final(self).model().wf(),
    {
        proof {
            reveal(DiskTableModel::moved);
        }
        let n: usize = self.rows.len();
        if n == 0 {
            return;
        }
        self.sel_idx = move_place(self.sel_idx, delta, n);
        self.sel_pid = self.rows[self.sel_idx].pid;
        proof {
            assert(self.model() == old(self).model().moved(delta as int));
        }
    }

    pub fn move_by(&mut self, delta: i64)
        ensures
            final(self).model() == old(self).model().moved(delta as int),
            old(self).model().wf() ==> final(self).model().wf(),
    {
        self.shift(delta as i128);
    }

    pub fn page(&mut self, dir: i64)
        ensures
            final(self).model() == old(self).model().moved(dir * old(self).last_visible),
            old(self).model().wf() ==> final(self).model().wf(),
    {
        let delta: i128 = page_delta(dir, self.last_visible);
        self.shift(delta);
    }

    pub fn home(&mut self)
        ensures
            final(self).model() == old(self).model().moved(-(old(self).rows@.len() as int)),
            old(self).model().wf() ==> final(self).model().wf(),
    {
        let n: usize = self.rows.len();
        self.shift(-(n as i128));
    }

    pub fn end(&mut self)
        ensures
            final(self).model() == old(self).model().moved(old(self).rows@.len() as int),
            old(self).model().wf() ==> final(self).model().wf(),
    {
        let n: usize = self.rows.len();
        self.shift(n as i128);
    }

    /// Moves the selection.
    pub fn travel(&mut self, t: Travel)
        ensures
            final(self).model() == old(self).model().moved(t.distance(old(self).last_visible as nat, old(self).rows@.len())),
            old(self).model().wf() ==> final(self).model().wf(),
    {
        match t {
            Travel::Down => self.move_by(1),
            Travel::Up => self.move_by(-1),
            Travel::PageDown => self.page(1),
            Travel::PageUp => self.page(-1),
            Travel::Home => self.home(),
            Travel::End => self.end(),
        }
    }

    pub fn selected(&self) -> (r: Option<&ProcIO>)
        ensures
            match r {
                Some(p) => self.model().selection() == Some(*p),
                None => self.model().selection() is None,
            },
    {
        if self.sel_idx < self.rows.len() {
            Some(&self.rows[self.sel_idx])
        } else {
            None
        }
    }

    /// Renders the header plus as many rows as fit into `w` by `h` cells.
    pub fn view(&mut self, w: usize, h: usize) -> (r: Vec<String>)
        ensures
            final(self).model() == old(self).model().viewed(w as nat, h as nat),
            old(self).model().wf() ==> final(self).model().wf(),
            texts(r@) == final(self).model().lines(w as nat, h as nat),
    {
        broadcast use group_texts;

        let mut lines: Vec<String> = Vec::new();
        if w < 1 || h < 2 {
            proof {
                assert(texts(lines@) =~= seq![]);
            }
            return lines;
        }
        let visible: usize = h - 1;
        self.last_visible = visible;
        self.scroll = scroll_to(self.rows.len(), visible, self.sel_idx, self.scroll);
        proof {
            assert(self.model() == old(self).model().viewed(w as nat, h as nat));
        }
        let ghost t = self.model();
        lines.push(self.styled_header(w));
        let n: usize = self.rows.len();
        let count: usize = if self.scroll >= n {
            0
        } else if n - self.scroll < visible {
            n - self.scroll
        } else {
            visible
        };
        let mut i: usize = 0;
        proof {
            assert(texts(lines@) =~= seq![t.styled_head(w as nat)] + Seq::new(
                0,
                |k: int| t.styled_row(t.scroll + k, w as nat),
            ));
        }
        while i < count
            invariant
                i <= count,
                count == t.rows_in_view(h as nat),
                t == self.model(),
                n == self.rows@.len(),
                count > 0 ==> self.scroll + count <= n,
                texts(lines@) == seq![t.styled_head(w as nat)] + Seq::new(
                    i as nat,
                    |k: int| t.styled_row(t.scroll + k, w as nat),
                ),
            decreases count - i,
        {
            broadcast use group_texts;

            let line = self.styled_row(self.scroll + i, w);
            lines.push(line);
            proof {
                assert(texts(lines@) =~= seq![t.styled_head(w as nat)] + Seq::new(
                    (i + 1) as nat,
                    |k: int| t.styled_row(t.scroll + k, w as nat),
                ));
            }
            i = i + 1;
        }
        lines
    }

    fn styled_row(&self, i: usize, w: usize) -> (r: String)
        requires
            i < self.rows@.len(),
        ensures
            r@ == self.model().styled_row(i as int, w as nat),
    {
        let pw = proc_width(w);
        if i == self.sel_idx {
            let line = plain_line(&self.rows[i], pw);
            selected_style().render(pad_truncate(line.as_str(), w).as_str())
        } else {
            row_line(&self.rows[i], pw)
        }
    }

    fn column(&self, by: DiskSort, head: &str) -> (r: String)
        ensures
            r@ == self.model().column(by, head@),
    {
        if self.sort_by == by {
            joined2(head, direction_mark(self.asc))
        } else {
            head.to_owned()
        }
    }

    fn header_line(&self, pw: usize) -> (r: String)
        ensures
            r@ == self.model().header(pw as nat),
    {
        let mut s = left_pad("PID", DISK_PID_W);
        s.append("  ");
        s.append(right_pad("PROCESS", pw).as_str());
        s.append(" ");
        s.append(left_pad(self.column(DiskSort::Read, "READ").as_str(), DISK_RATE_W).as_str());
        s.append(" ");
        s.append(left_pad(self.column(DiskSort::Write, "WRITE").as_str(), DISK_RATE_W).as_str());
        s
    }

    fn styled_header(&self, w: usize) -> (r: String)
        ensures
            r@ == self.model().styled_head(w as nat),
    {
        let header = pad_truncate(self.header_line(proc_width(w)).as_str(), w);
        let label = match self.sort_by {
            DiskSort::Total => {
                return disk_header_style().render(header.as_str());
            },
            DiskSort::Read => self.column(DiskSort::Read, "READ"),
            DiskSort::Write => self.column(DiskSort::Write, "WRITE"),
        };
        set_off_label(header.as_str(), label.as_str(), disk_header_style(), disk_sort_chip_style())
    }
}

/// Puts a row behind those that it does not stand before.
fn place_row(rows: &mut Vec<ProcIO>, x: ProcIO, by: DiskSort, asc: bool)
    ensures
        final(rows)@ == old(rows)@.insert(slot(old(rows)@, x, disk_order(by, asc)), x),
{
    let ghost before = rows@;
    let ghost order = disk_order(by, asc);
    let mut at: usize = rows.len();
    proof {
        assert(before.take(at as int) =~= before);
    }
    while at > 0 && goes_before(by, asc, &x, &rows[at - 1])
        invariant
            at <= rows@.len(),
            rows@ == before,
            order == disk_order(by, asc),
            slot(before, x, order) == slot(before.take(at as int), x, order),
        decreases at,
    {
        proof {
            assert(before.take(at as int).drop_last() =~= before.take(at - 1));
        }
        at = at - 1;
    }
    proof {
        if at > 0 {
            assert(before.take(at as int).last() == before[at - 1]);
        }
    }
    rows.insert(at, x);
}

/// The rows in order.
fn sorted(rows: &Vec<ProcIO>, by: DiskSort, asc: bool) -> (r: Vec<ProcIO>)
    ensures
        r@ == arranged(rows@, disk_order(by, asc)),
{
    let mut out: Vec<ProcIO> = Vec::new();
    let mut i: usize = 0;
    proof {
        assert(rows@.take(0) =~= seq![]);
        assert(out@ =~= arranged(rows@.take(0), disk_order(by, asc)));
    }
    while i < rows.len()
        invariant
            i <= rows@.len(),
            out@ == arranged(rows@.take(i as int), disk_order(by, asc)),
        decreases rows@.len() - i,
    {
        proof {
            assert(rows@.take(i + 1).drop_last() =~= rows@.take(i as int));
        }
        place_row(&mut out, rows[i].copy(), by, asc);
        i = i + 1;
    }
    proof {
        assert(rows@.take(rows@.len() as int) =~= rows@);
    }
    out
}

proof fn lemma_disk_place(rows: Seq<ProcIO>, pid: i32, i: int)
    requires
        0 <= i <= rows.len(),
    ensures
        match disk_place(rows, pid, i) {
            Some(k) => i <= k < rows.len() && rows[k].pid == pid,
            None => forall|k: int| i <= k < rows.len() ==> (#[trigger] rows[k]).pid != pid,
        },
    decreases rows.len() - i,
{
    if i < rows.len() && rows[i].pid != pid {
        lemma_disk_place(rows, pid, i + 1);
    }
}

/// Sorting leaves the selection on its process.
proof fn lemma_disk_sorted(t: DiskTableModel, s: DiskSort)
    requires
        t.wf(),
    ensures
        t.sorted_by(s).wf(),
        t.sorted_by(s).rows.len() == t.rows.len(),
        t.selection() matches Some(p) ==> t.sorted_by(s).selection() is Some && t.sorted_by(s).selection()->0.pid == p.pid,
{
    reveal(DiskTableModel::sorted_by);
    let u = t.sorted_by(s);
    let before = disk_order(s, u.asc);
    lemma_arranged_permutes(t.rows, before);
    lemma_disk_place(u.rows, t.sel_pid, 0);
    if t.rows.len() > 0 {
        let p = t.rows[t.sel_idx as int];
        assert(t.rows.contains(p));
        lemma_arranged_keeps(t.rows, before, p);
        assert(u.rows.contains(p));
    }
}

/// A fresh snapshot leaves the selection on its process where the search still
/// finds that, else in the same place, or on the last row where that is no
/// longer one. Nothing is selected exactly where no row is listed. Sorting
/// leaves the selection on its process, and moving and showing leave a row
/// selected and its process remembered.
pub proof fn lemma_disk_selection_pinned(
    t: DiskTableModel,
    all: Seq<ProcIO>,
    s: DiskSort,
    delta: int,
    w: nat,
    h: nat,
)
    requires
        t.wf(),
    ensures
        ({
            let u = t.with_rows(all);
            &&& u.wf()
            &&& u.selection() is None <==> u.rows.len() == 0
            &&& t.selection() matches Some(p) ==> if exists|q: ProcIO| #[trigger]
                all.contains(q) && q.pid == p.pid && disk_passes(lowered(t.search))(q) {
                u.selection() is Some && u.selection()->0.pid == p.pid
            } else {
                u.rows.len() > 0 ==> u.sel_idx == if t.sel_idx < u.rows.len() {
                    t.sel_idx as int
                } else {
                    u.rows.len() - 1
                }
            }
        }),
        ({
            let v = t.sorted_by(s);
            &&& v.wf()
            &&& v.rows.len() == t.rows.len()
            &&& t.selection() matches Some(p) ==> v.selection() is Some && v.selection()->0.pid == p.pid
        }),
        DiskTableModel::empty().wf(),
        t.moved(delta).wf(),
        t.viewed(w, h).wf(),
        t.viewed(w, h).selection() == t.selection(),
{
    reveal(DiskTableModel::with_rows);
    reveal(DiskTableModel::moved);
    let u = t.with_rows(all);
    let pass = disk_passes(lowered(t.search));
    let before = disk_order(t.sort_by, t.asc);
    lemma_disk_place(u.rows, t.sel_pid, 0);
    assert forall|q: ProcIO| u.rows.contains(q) == (all.contains(q) && pass(q)) by {
        lemma_filtered(all, pass, q);
        lemma_arranged_keeps(all.filter(pass), before, q);
    }
    assert forall|k: int| 0 <= k < u.rows.len() implies all.contains(#[trigger] u.rows[k]) && pass(u.rows[k]) by {
        assert(u.rows.contains(u.rows[k]));
    }
    lemma_disk_sorted(t, s);
}

/// A row whose rates are numbers.
pub open spec fn disk_measured() -> spec_fn(ProcIO) -> bool {
    |p: ProcIO| !p.read_per_sec.nan() && !p.write_per_sec.nan() && !p.read_per_sec.sum(p.write_per_sec).nan()
}

/// The rows are those that the search finds, ordered by the sorted column.
pub proof fn lemma_disk_rows(t: DiskTableModel, all: Seq<ProcIO>, p: ProcIO)
    requires
        all_of(all, disk_measured()),
    ensures
        in_order(t.listing(all), disk_order(t.sort_by, t.asc)),
        t.listing(all).contains(p) == (all.contains(p) && disk_passes(lowered(t.search))(p)),
        t.listing(all).to_multiset() == all.filter(disk_passes(lowered(t.search))).to_multiset(),
{
    let before = disk_order(t.sort_by, t.asc);
    let pass = disk_passes(lowered(t.search));
    let rows = all.filter(pass);
    lemma_filtered_kind(all, pass, disk_measured());
    assert(strict_weak(disk_measured(), before));
    lemma_arranged_in_order(rows, disk_measured(), before);
    lemma_filtered(all, pass, p);
    lemma_arranged_keeps(rows, before, p);
    lemma_arranged_permutes(rows, before);
}

/// The rows stand by the chosen rate, highest first, or lowest first where the
/// order is turned round. Rows that tie stand by process number, lowest first
/// either way.
pub proof fn lemma_disk_ranked(t: DiskTableModel, all: Seq<ProcIO>, i: int, j: int)
    requires
        all_of(all, disk_measured()),
        0 <= i < j < t.listing(all).len(),
        all_of(t.listing(all), |p: ProcIO| p.read_per_sec.finite() && p.write_per_sec.finite() && p.read_per_sec.sum(p.write_per_sec).finite()),
    ensures
        ({
            let a = t.listing(all)[i];
            let b = t.listing(all)[j];
            let x = match t.sort_by {
                DiskSort::Read => a.read_per_sec.value(),
                DiskSort::Write => a.write_per_sec.value(),
                DiskSort::Total => a.read_per_sec.sum(a.write_per_sec).value(),
            };
            let y = match t.sort_by {
                DiskSort::Read => b.read_per_sec.value(),
                DiskSort::Write => b.write_per_sec.value(),
                DiskSort::Total => b.read_per_sec.sum(b.write_per_sec).value(),
            };
            &&& t.asc ==> x <= y
            &&& !t.asc ==> x >= y
            &&& x == y ==> a.pid <= b.pid
        }),
{
    let a = t.listing(all)[i];
    let b = t.listing(all)[j];
    lemma_disk_rows(t, all, a);
    assert(!disk_order(t.sort_by, t.asc)(b, a));
    assert(!disk_before(t.sort_by, t.asc, b, a));
    lemma_order_value(disk_rate(t.sort_by, a), disk_rate(t.sort_by, b));
    lemma_order_value(disk_rate(t.sort_by, b), disk_rate(t.sort_by, a));
}

/// A process is listed where the search, without regard to case, occurs in its
/// name or its number. No other is.
pub proof fn lemma_disk_searched(t: DiskTableModel, all: Seq<ProcIO>, p: ProcIO)
    requires
        all_of(all, disk_measured()),
    ensures
        t.listing(all).contains(p) == ({
            let q = lowered(t.search);
            &&& all.contains(p)
            &&& occurs(lowered(p.name@), q) || occurs(signed_numeral(p.pid as int), q)
        }),
{
    let q = lowered(t.search);
    lemma_disk_rows(t, all, p);
    lemma_found(lowered(p.name@), q);
    lemma_found(signed_numeral(p.pid as int), q);
    if q.len() == 0 {
        assert(lowered(p.name@).subrange(0, 0 + q.len() as int) =~= q);
    }
}

} // verus!
