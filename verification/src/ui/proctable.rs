//! An htop-style process list: fixed header, movable selection, scrolling,
//! sort by CPU, memory or GPU usage, substring search, tree view and
//! own-processes filter.

use super::list::{move_place, moved_place, page_delta, scroll_to, scrolled, Travel};
use crate::chars::{
    chars_of, group_texts, joined2, joined3, numeral, numeral_of, same, signed_numeral, signed_numeral_of, string_of, texts,
};
use crate::config::{lowercase, lowered, quote, quoted};
use crate::metrics::process::Process;
use crate::num::value::lemma_order_value;
use crate::num::Num;
use crate::scan::{contains, find, find_in, holds, lemma_found, occurs};
use crate::sort::{
    all_of, arranged, in_order, lemma_arranged_in_order, lemma_arranged_keeps, lemma_arranged_permutes, lemma_filtered,
    lemma_filtered_kind, slot, strict_weak,
};
use crate::style::{Style, BLACK, CYAN, GPU_COLOR, GPU_MEM_COLOR, GRAY, GREEN, WHITE};
use crate::text::{
    bytes_text, fitted, format_bytes, left_aligned, left_pad, load_color, load_light, pad_truncate, right_aligned, right_pad,
};
use vstd::prelude::*;
use vstd::string::StringExecFns;

verus! {

/// The column the process table is ordered by.
#[derive(Clone, Copy, Debug, PartialEq, Eq, Structural)]
pub enum ProcSort {
    Cpu,
    Mem,
    Gpu,
}

impl ProcSort {
    /// The name of the column.
    pub open spec fn name(self) -> Seq<char> {
        match self {
            ProcSort::Mem => "mem"@,
            ProcSort::Gpu => "gpu"@,
            ProcSort::Cpu => "cpu"@,
        }
    }

    /// The column of a name; CPU for any that is none.
    pub open spec fn named(s: Seq<char>) -> ProcSort {
        if s == "mem"@ {
            ProcSort::Mem
        } else if s == "gpu"@ {
            ProcSort::Gpu
        } else {
            ProcSort::Cpu
        }
    }

    /// The head of the column.
    pub open spec fn head(self) -> Seq<char> {
        match self {
            ProcSort::Mem => "MEM%"@,
            ProcSort::Gpu => "GPU%"@,
            ProcSort::Cpu => "CPU%"@,
        }
    }

    pub fn as_str(self) -> (r: &'static str)
        ensures
            r@ == self.name(),
    {
        match self {
            ProcSort::Mem => "mem",
            ProcSort::Gpu => "gpu",
            ProcSort::Cpu => "cpu",
        }
    }

    pub fn parse(s: &str) -> (r: ProcSort)
        ensures
            r == ProcSort::named(s@),
    {
        if same(s, "mem") {
            ProcSort::Mem
        } else if same(s, "gpu") {
            ProcSort::Gpu
        } else {
            ProcSort::Cpu
        }
    }

    fn column_label(self) -> (r: &'static str)
        ensures
            r@ == self.head(),
    {
        match self {
            ProcSort::Mem => "MEM%",
            ProcSort::Gpu => "GPU%",
            ProcSort::Cpu => "CPU%",
        }
    }
}

/// Reading a column's name gives the column back.
pub proof fn lemma_sort_name_reads_back(s: ProcSort)
    ensures
        ProcSort::named(s.name()) == s,
{
    reveal_strlit("mem");
    reveal_strlit("gpu");
    reveal_strlit("cpu");
    assert("mem"@[0] == 'm');
    assert("gpu"@[0] == 'g');
    assert("cpu"@[0] == 'c');
}

/// The style of the header.
pub open spec fn header_ink() -> Style {
    Style::on(BLACK, GREEN)
}

/// The style of the sorted column's head.
pub open spec fn chip_ink() -> Style {
    Style::on(BLACK, CYAN).strong()
}

/// The style of the selected row.
pub open spec fn selected_ink() -> Style {
    Style::on(WHITE, GRAY).strong()
}

fn header_style() -> (r: Style)
    ensures
        r == header_ink(),
{
    Style::new().fg(BLACK).bg(GREEN)
}

fn sort_chip_style() -> (r: Style)
    ensures
        r == chip_ink(),
{
    Style::new().fg(BLACK).bg(CYAN).bold()
}

pub fn selected_style() -> (r: Style)
    ensures
        r == selected_ink(),
{
    Style::new().fg(WHITE).bg(GRAY).bold()
}

/// Whether the first row ranks above the second by the sorted column; nothing
/// where they tie.
pub open spec fn ranked(by: ProcSort, a: Process, b: Process) -> Option<bool> {
    match by {
        ProcSort::Mem => if a.rss != b.rss {
            Some(a.rss > b.rss)
        } else {
            None
        },
        ProcSort::Gpu => if !a.gpu_percent.same(b.gpu_percent) {
            Some(b.gpu_percent.less(a.gpu_percent))
        } else if a.gpu_mem != b.gpu_mem {
            Some(a.gpu_mem > b.gpu_mem)
        } else {
            None
        },
        ProcSort::Cpu => if !a.cpu_percent.same(b.cpu_percent) {
            Some(b.cpu_percent.less(a.cpu_percent))
        } else {
            None
        },
    }
}

/// Whether the first row stands before the second: by the sorted column,
/// highest first unless ascending; ties by process number, always ascending.
pub open spec fn stands_before(by: ProcSort, asc: bool, a: Process, b: Process) -> bool {
    match ranked(by, a, b) {
        Some(above) => above != asc,
        None => a.pid < b.pid,
    }
}

/// The order of the rows.
pub open spec fn row_order(by: ProcSort, asc: bool) -> spec_fn(Process, Process) -> bool {
    |a: Process, b: Process| stands_before(by, asc, a, b)
}

/// Orders `a` before `b` descending on the sorted column. `None` when they
/// tie, letting the caller fall back to process numbers.
fn compare(by: ProcSort, a: &Process, b: &Process) -> (r: Option<bool>)
    ensures
        r == ranked(by, *a, *b),
{
    match by {
        ProcSort::Mem => if a.rss != b.rss {
            Some(a.rss > b.rss)
        } else {
            None
        },
        ProcSort::Gpu => if !a.gpu_percent.equals(b.gpu_percent) {
            Some(b.gpu_percent.lt(a.gpu_percent))
        } else if a.gpu_mem != b.gpu_mem {
            Some(a.gpu_mem > b.gpu_mem)
        } else {
            None
        },
        ProcSort::Cpu => if !a.cpu_percent.equals(b.cpu_percent) {
            Some(b.cpu_percent.lt(a.cpu_percent))
        } else {
            None
        },
    }
}

fn goes_before(by: ProcSort, asc: bool, a: &Process, b: &Process) -> (r: bool)
    ensures
        r == stands_before(by, asc, *a, *b),
{
    match compare(by, a, b) {
        Some(above) => above != asc,
        None => a.pid < b.pid,
    }
}

/// Whether a (lower-case) query occurs in a process's command, user name or
/// number.
pub open spec fn found_in(r: Process, query: Seq<char>) -> bool {
    contains(lowered(r.command@), query) || contains(lowered(r.user@), query) || contains(
        signed_numeral(r.pid as int),
        query,
    )
}

fn matches(r: &Process, query: &str) -> (b: bool)
    ensures
        b == found_in(*r, query@),
{
    holds(lowercase(r.command.as_str()).as_str(), query) || holds(lowercase(r.user.as_str()).as_str(), query) || holds(
        signed_numeral_of(r.pid as i64).as_str(),
        query,
    )
}

/// Whether a process passes the search and the own-processes filter.
pub open spec fn passes(r: Process, query: Seq<char>, mine_only: bool, user: Seq<char>) -> bool {
    (query.len() == 0 || found_in(r, query)) && (!mine_only || r.user@ == user)
}

/// The processes that pass the filters.
pub open spec fn passing(all: Seq<Process>, query: Seq<char>, mine_only: bool, user: Seq<char>) -> Seq<Process> {
    all.filter(|r: Process| passes(r, query, mine_only, user))
}

/// Whether some row has a process number.
pub open spec fn has_pid(rows: Seq<Process>, pid: i32) -> bool {
    exists|k: int| 0 <= k < rows.len() && (#[trigger] rows[k]).pid == pid
}

/// The process under which a row stands in the tree: its parent where that is
/// listed and not itself, else the top, number 0.
pub open spec fn parent_of(rows: Seq<Process>, r: Process) -> i32 {
    if !has_pid(rows, r.ppid) || r.ppid == r.pid {
        0
    } else {
        r.ppid
    }
}

/// The places of the rows under a process among the first `n`.
pub open spec fn child_places(rows: Seq<Process>, pid: i32, n: nat) -> Seq<int>
    decreases n,
{
    if n == 0 {
        seq![]
    } else {
        let before = child_places(rows, pid, (n - 1) as nat);
        if parent_of(rows, rows[n - 1]) == pid {
            before.push(n - 1)
        } else {
            before
        }
    }
}

/// The places of the rows under a process.
pub open spec fn children(rows: Seq<Process>, pid: i32) -> Seq<int> {
    child_places(rows, pid, rows.len())
}

/// A tree as far as it has been walked: rows with their branch prefixes.
#[verifier::ext_equal]
pub struct Tree {
    pub rows: Seq<Process>,
    pub prefixes: Seq<Seq<char>>,
}

/// The branch before a row, where it stands under another.
pub open spec fn branch(pid: i32, indent: Seq<char>, last: bool) -> Seq<char> {
    if pid == 0 {
        seq![]
    } else if last {
        indent + "└─ "@
    } else {
        indent + "├─ "@
    }
}

/// The indent of the rows below a row.
pub open spec fn deeper(pid: i32, indent: Seq<char>, last: bool) -> Seq<char> {
    if pid == 0 {
        seq![]
    } else if last {
        indent + "   "@
    } else {
        indent + "│  "@
    }
}

/// The tree after the children of a process from the `i`-th on, each followed
/// by its own, at most `depth` levels deep. A process that has been listed is
/// not listed again.
pub open spec fn walked(rows: Seq<Process>, pid: i32, indent: Seq<char>, i: nat, t: Tree, depth: nat) -> Tree
    decreases depth, children(rows, pid).len() - i,
{
    let kids = children(rows, pid);
    if i >= kids.len() {
        t
    } else {
        let c = rows[kids[i as int]];
        let last = i == kids.len() - 1;
        if has_pid(t.rows, c.pid) {
            walked(rows, pid, indent, i + 1, t, depth)
        } else {
            let listed = Tree { rows: t.rows.push(c), prefixes: t.prefixes.push(branch(pid, indent, last)) };
            let below = if depth == 0 {
                listed
            } else {
                walked(rows, c.pid, deeper(pid, indent, last), 0, listed, (depth - 1) as nat)
            };
            walked(rows, pid, indent, i + 1, below, depth)
        }
    }
}

/// The rows depth first by parentage, siblings as they stood, with a branch
/// prefix each. No chain of rows is deeper than there are rows.
pub open spec fn tree_of(rows: Seq<Process>) -> Tree {
    walked(rows, 0, seq![], 0, Tree { rows: seq![], prefixes: seq![] }, rows.len())
}

/// The first row of a process.
pub open spec fn place_of_pid(rows: Seq<Process>, pid: i32, i: int) -> Option<int>
    decreases rows.len() - i,
{
    if i < 0 || i >= rows.len() {
        None
    } else if rows[i].pid == pid {
        Some(i)
    } else {
        place_of_pid(rows, pid, i + 1)
    }
}

/// What a process table holds.
pub struct ProcTableModel {
    pub sort_by: ProcSort,
    pub asc: bool,
    pub search: Seq<char>,
    pub tree: bool,
    pub mine_only: bool,
    pub mine_user: Seq<char>,
    pub show_gpu: bool,
    pub rows: Seq<Process>,
    pub prefixes: Option<Seq<Seq<char>>>,
    pub sel_pid: i32,
    pub sel_idx: nat,
    pub scroll: nat,
    pub last_visible: nat,
}

pub struct ProcTable {
    pub sort_by: ProcSort,
    pub asc: bool,
    pub search: String,
    pub tree: bool,
    pub mine_only: bool,
    pub mine_user: String,
    pub show_gpu: bool,
    pub rows: Vec<Process>,
    pub prefixes: Option<Vec<String>>,
    pub sel_pid: i32,
    pub sel_idx: usize,
    pub scroll: usize,
    pub last_visible: usize,
}

/// The prefixes of a tree view.
pub open spec fn prefix_texts(p: Option<Vec<String>>) -> Option<Seq<Seq<char>>> {
    match p {
        Some(v) => Some(texts(v@)),
        None => None,
    }
}

impl ProcTable {
    /// What the table shows, as plain values.
    pub open spec fn model(self) -> ProcTableModel {
        ProcTableModel {
            sort_by: self.sort_by,
            asc: self.asc,
            search: self.search@,
            tree: self.tree,
            mine_only: self.mine_only,
            mine_user: self.mine_user@,
            show_gpu: self.show_gpu,
            rows: self.rows@,
            prefixes: prefix_texts(self.prefixes),
            sel_pid: self.sel_pid,
            sel_idx: self.sel_idx as nat,
            scroll: self.scroll as nat,
            last_visible: self.last_visible as nat,
        }
    }
}

impl ProcTableModel {
    /// A tree view has a prefix for each row. Where there are rows one is
    /// selected, and its process is the one remembered.
    pub open spec fn wf(self) -> bool {
        &&& self.prefixes matches Some(p) ==> p.len() == self.rows.len()
        &&& self.rows.len() > 0 ==> self.sel_idx < self.rows.len() && self.sel_pid == self.rows[self.sel_idx as int].pid
    }

    /// An empty table, by CPU usage.
    pub open spec fn empty() -> ProcTableModel {
        ProcTableModel {
            sort_by: ProcSort::Cpu,
            asc: false,
            search: seq![],
            tree: false,
            mine_only: false,
            mine_user: seq![],
            show_gpu: false,
            rows: seq![],
            prefixes: None,
            sel_pid: 0,
            sel_idx: 0,
            scroll: 0,
            last_visible: 20,
        }
    }

    /// The rows that pass the filters, in order.
    pub open spec fn listing(self, all: Seq<Process>) -> Seq<Process> {
        arranged(
            passing(all, lowered(self.search), self.mine_only, self.mine_user),
            row_order(self.sort_by, self.asc),
        )
    }

    /// Tree order needs the full parent chain; searching or the user filter
    /// removes ancestors, so those views stay flat.
    pub open spec fn treed(self) -> bool {
        self.tree && lowered(self.search).len() == 0 && !self.mine_only
    }

    /// The selection re-found after the rows changed: on the same process
    /// where it is still listed, else in the same place or the last.
    pub open spec fn reselected(self) -> ProcTableModel {
        match place_of_pid(self.rows, self.sel_pid, 0) {
            Some(i) => ProcTableModel { sel_idx: i as nat, ..self },
            None => {
                let idx = if self.sel_idx < self.rows.len() {
                    self.sel_idx
                } else if self.rows.len() == 0 {
                    0
                } else {
                    (self.rows.len() - 1) as nat
                };
                ProcTableModel {
                    sel_idx: idx,
                    sel_pid: if idx < self.rows.len() {
                        self.rows[idx as int].pid
                    } else {
                        0
                    },
                    ..self
                }
            },
        }
    }

    /// The table with a fresh snapshot: filtered, sorted, in tree order where
    /// wanted, the selection pinned to its process.
    #[verifier::opaque]
    pub open spec fn with_rows(self, all: Seq<Process>) -> ProcTableModel {
        let flat = self.listing(all);
        (if self.treed() {
            ProcTableModel { rows: tree_of(flat).rows, prefixes: Some(tree_of(flat).prefixes), ..self }
        } else {
            ProcTableModel { rows: flat, prefixes: None, ..self }
        }).reselected()
    }

    /// The selection moved by some rows.
    #[verifier::opaque]
    pub open spec fn moved(self, delta: int) -> ProcTableModel {
        if self.rows.len() == 0 {
            self
        } else {
            let idx = moved_place(self.sel_idx as int, delta, self.rows.len() as int);
            ProcTableModel { sel_idx: idx as nat, sel_pid: self.rows[idx].pid, ..self }
        }
    }

    /// The selection on the first row, in view.
    pub open spec fn at_first(self) -> ProcTableModel {
        ProcTableModel {
            sel_idx: 0,
            scroll: 0,
            sel_pid: if self.rows.len() > 0 {
                self.rows[0].pid
            } else {
                0
            },
            ..self
        }
    }

    /// Whether a row of the viewport holds a process.
    pub open spec fn can_select(self, offset: int) -> bool {
        0 <= offset < self.last_visible && self.scroll + offset < self.rows.len()
    }

    /// The selection on a row of the viewport.
    pub open spec fn selecting(self, offset: int) -> ProcTableModel {
        if self.can_select(offset) {
            ProcTableModel {
                sel_idx: (self.scroll + offset) as nat,
                sel_pid: self.rows[self.scroll + offset].pid,
                ..self
            }
        } else {
            self
        }
    }

    /// The selected process.
    pub open spec fn selection(self) -> Option<Process> {
        if self.sel_idx < self.rows.len() {
            Some(self.rows[self.sel_idx as int])
        } else {
            None
        }
    }
}

/// Each listed row has a prefix.
proof fn lemma_walked_even(rows: Seq<Process>, pid: i32, indent: Seq<char>, i: nat, t: Tree, depth: nat)
    requires
        t.rows.len() == t.prefixes.len(),
    ensures
        walked(rows, pid, indent, i, t, depth).rows.len() == walked(rows, pid, indent, i, t, depth).prefixes.len(),
    decreases depth, children(rows, pid).len() - i,
{
    let kids = children(rows, pid);
    if i < kids.len() {
        let c = rows[kids[i as int]];
        let last = i == kids.len() - 1;
        if has_pid(t.rows, c.pid) {
            lemma_walked_even(rows, pid, indent, i + 1, t, depth);
        } else {
            let listed = Tree { rows: t.rows.push(c), prefixes: t.prefixes.push(branch(pid, indent, last)) };
            if depth == 0 {
                lemma_walked_even(rows, pid, indent, i + 1, listed, depth);
            } else {
                let inner = deeper(pid, indent, last);
                lemma_walked_even(rows, c.pid, inner, 0, listed, (depth - 1) as nat);
                let below = walked(rows, c.pid, inner, 0, listed, (depth - 1) as nat);
                lemma_walked_even(rows, pid, indent, i + 1, below, depth);
            }
        }
    }
}

fn is_listed(rows: &Vec<Process>, pid: i32) -> (r: bool)
    ensures
        r == has_pid(rows@, pid),
{
    let mut i: usize = 0;
    while i < rows.len()
        invariant
            i <= rows@.len(),
            forall|k: int| 0 <= k < i ==> (#[trigger] rows@[k]).pid != pid,
        decreases rows@.len() - i,
    {
        if rows[i].pid == pid {
            return true;
        }
        i = i + 1;
    }
    false
}

/// The parent of each row in the tree.
fn tree_parents(rows: &Vec<Process>) -> (r: Vec<i32>)
    ensures
        r@.len() == rows@.len(),
        forall|i: int| 0 <= i < rows@.len() ==> #[trigger] r@[i] == parent_of(rows@, rows@[i]),
{
    let mut out: Vec<i32> = Vec::new();
    let mut i: usize = 0;
    while i < rows.len()
        invariant
            i <= rows@.len(),
            out@.len() == i,
            forall|k: int| 0 <= k < i ==> #[trigger] out@[k] == parent_of(rows@, rows@[k]),
        decreases rows@.len() - i,
    {
        let up: i32 = rows[i].ppid;
        if up == rows[i].pid || !is_listed(rows, up) {
            out.push(0);
        } else {
            out.push(up);
        }
        i = i + 1;
    }
    out
}

/// The places of the rows under a process.
fn tree_children(parents: &Vec<i32>, pid: i32, Ghost(rows): Ghost<Seq<Process>>) -> (r: Vec<usize>)
    requires
        parents@.len() == rows.len(),
        forall|i: int| 0 <= i < rows.len() ==> #[trigger] parents@[i] == parent_of(rows, rows[i]),
    ensures
        r@.len() == children(rows, pid).len(),
        forall|k: int| 0 <= k < r@.len() ==> #[trigger] r@[k] == children(rows, pid)[k] && r@[k] < rows.len(),
{
    let mut out: Vec<usize> = Vec::new();
    let mut i: usize = 0;
    while i < parents.len()
        invariant
            i <= parents@.len(),
            parents@.len() == rows.len(),
            forall|k: int| 0 <= k < rows.len() ==> #[trigger] parents@[k] == parent_of(rows, rows[k]),
            out@.len() == child_places(rows, pid, i as nat).len(),
            forall|k: int|
                0 <= k < out@.len() ==> #[trigger] out@[k] == child_places(rows, pid, i as nat)[k] && out@[k] < i,
        decreases parents@.len() - i,
    {
        if parents[i] == pid {
            out.push(i);
        }
        i = i + 1;
    }
    out
}

/// The tree that two lists hold.
spec fn tree_in(rows: Seq<Process>, prefixes: Seq<String>) -> Tree {
    Tree { rows, prefixes: texts(prefixes) }
}

fn walk(
    rows: &Vec<Process>,
    parents: &Vec<i32>,
    pid: i32,
    indent: &str,
    out: &mut Vec<Process>,
    prefixes: &mut Vec<String>,
    depth: usize,
)
    requires
        parents@.len() == rows@.len(),
        forall|i: int| 0 <= i < rows@.len() ==> #[trigger] parents@[i] == parent_of(rows@, rows@[i]),
    ensures
        tree_in(final(out)@, final(prefixes)@) == walked(
            rows@,
            pid,
            indent@,
            0,
            tree_in(old(out)@, old(prefixes)@),
            depth as nat,
        ),
    decreases depth,
{
    broadcast use group_texts;

    let kids: Vec<usize> = tree_children(parents, pid, Ghost(rows@));
    let n: usize = kids.len();
    let ghost start = tree_in(out@, prefixes@);
    let mut i: usize = 0;
    while i < n
        invariant
            i <= n,
            n == kids@.len(),
            n == children(rows@, pid).len(),
            start == tree_in(old(out)@, old(prefixes)@),
            parents@.len() == rows@.len(),
            forall|k: int| 0 <= k < rows@.len() ==> #[trigger] parents@[k] == parent_of(rows@, rows@[k]),
            forall|k: int| 0 <= k < n ==> #[trigger] kids@[k] == children(rows@, pid)[k] && kids@[k] < rows@.len(),
            walked(rows@, pid, indent@, 0, start, depth as nat) == walked(
                rows@,
                pid,
                indent@,
                i as nat,
                tree_in(out@, prefixes@),
                depth as nat,
            ),
        decreases n - i,
    {
        broadcast use group_texts;

        let at: usize = kids[i];
        let c = &rows[at];
        let last = i == n - 1;
        if !is_listed(out, c.pid) {
            let ghost t = tree_in(out@, prefixes@);
            let prefix = if pid == 0 {
                String::new()
            } else if last {
                joined2(indent, "└─ ")
            } else {
                joined2(indent, "├─ ")
            };
            let inner = if pid == 0 {
                String::new()
            } else if last {
                joined2(indent, "   ")
            } else {
                joined2(indent, "│  ")
            };
            proof {
                assert(prefix@ =~= branch(pid, indent@, last));
                assert(inner@ =~= deeper(pid, indent@, last));
            }
            out.push(c.copy());
            prefixes.push(prefix);
            proof {
                assert(tree_in(out@, prefixes@) =~= Tree {
                    rows: t.rows.push(*c),
                    prefixes: t.prefixes.push(branch(pid, indent@, last)),
                });
            }
            if depth > 0 {
                walk(rows, parents, c.pid, inner.as_str(), out, prefixes, depth - 1);
            }
        }
        i = i + 1;
    }
}

/// Arranges the (already sorted) rows depth first by parentage, so siblings
/// keep the sort order, and returns a branch prefix per row.
pub fn tree_order(rows: &Vec<Process>) -> (r: (Vec<Process>, Vec<String>))
    ensures
        r.0@ == tree_of(rows@).rows,
        texts(r.1@) == tree_of(rows@).prefixes,
        r.0@.len() == r.1@.len(),
{
    let parents: Vec<i32> = tree_parents(rows);
    let mut out: Vec<Process> = Vec::new();
    let mut prefixes: Vec<String> = Vec::new();
    let top = String::new();
    proof {
        assert(top@ =~= seq![]);
        assert(tree_in(out@, prefixes@) =~= Tree { rows: seq![], prefixes: seq![] });
        lemma_walked_even(rows@, 0, seq![], 0, Tree { rows: seq![], prefixes: seq![] }, rows@.len());
    }
    walk(rows, &parents, 0, top.as_str(), &mut out, &mut prefixes, rows.len());
    proof {
        assert(texts(prefixes@).len() == prefixes@.len());
    }
    (out, prefixes)
}

/// How many of the first `n` rows are of processes that a list lacks.
spec fn lacking(rows: Seq<Process>, list: Seq<Process>, n: nat) -> nat
    decreases n,
{
    if n == 0 {
        0
    } else {
        lacking(rows, list, (n - 1) as nat) + if has_pid(list, rows[n - 1].pid) {
            0nat
        } else {
            1nat
        }
    }
}

proof fn lemma_has_pid_push(list: Seq<Process>, c: Process, pid: i32)
    ensures
        has_pid(list.push(c), pid) == (has_pid(list, pid) || c.pid == pid),
{
    let more = list.push(c);
    if has_pid(list, pid) {
        let k = choose|k: int| 0 <= k < list.len() && (#[trigger] list[k]).pid == pid;
        assert(more[k].pid == pid);
    }
    if c.pid == pid {
        assert(more[list.len() as int].pid == pid);
    }
    if has_pid(more, pid) && c.pid != pid {
        let k = choose|k: int| 0 <= k < more.len() && (#[trigger] more[k]).pid == pid;
        assert(list[k].pid == pid);
    }
}

proof fn lemma_lacking_push(rows: Seq<Process>, list: Seq<Process>, c: Process, n: nat)
    requires
        n <= rows.len(),
    ensures
        lacking(rows, list.push(c), n) <= lacking(rows, list, n) <= n,
        !has_pid(list, c.pid) && (exists|k: int| 0 <= k < n && #[trigger] rows[k] == c) ==> lacking(rows, list.push(c), n)
            < lacking(rows, list, n),
    decreases n,
{
    if n > 0 {
        lemma_lacking_push(rows, list, c, (n - 1) as nat);
        lemma_has_pid_push(list, c, rows[n - 1].pid);
        if exists|k: int| 0 <= k < n && #[trigger] rows[k] == c {
            let k = choose|k: int| 0 <= k < n && #[trigger] rows[k] == c;
            if k < n - 1 {
                assert(rows[k] == c);
            }
        }
    }
}

proof fn lemma_child_places(rows: Seq<Process>, pid: i32, n: nat)
    requires
        n <= rows.len(),
    ensures
        forall|k: int|
            0 <= k < child_places(rows, pid, n).len() ==> 0 <= #[trigger] child_places(rows, pid, n)[k] < n && parent_of(
                rows,
                rows[child_places(rows, pid, n)[k]],
            ) == pid,
        forall|j: int|
            0 <= j < n && parent_of(rows, #[trigger] rows[j]) == pid ==> child_places(rows, pid, n).contains(j),
        forall|j: int, k: int|
            0 <= j < k < child_places(rows, pid, n).len() ==> #[trigger] child_places(rows, pid, n)[j]
                < #[trigger] child_places(rows, pid, n)[k],
    decreases n,
{
    if n > 0 {
        lemma_child_places(rows, pid, (n - 1) as nat);
        let before = child_places(rows, pid, (n - 1) as nat);
        let after = child_places(rows, pid, n);
        assert forall|j: int| 0 <= j < n && parent_of(rows, #[trigger] rows[j]) == pid implies after.contains(j) by {
            if j < n - 1 {
                assert(before.contains(j));
                let k = choose|k: int| 0 <= k < before.len() && before[k] == j;
                assert(after[k] == j);
            } else {
                assert(after[before.len() as int] == j);
            }
        }
    }
}

/// Every process that a list has, another has too.
spec fn covers(more: Seq<Process>, list: Seq<Process>) -> bool {
    forall|pid: i32| #[trigger] has_pid(list, pid) ==> has_pid(more, pid)
}

/// The rows under a process are all in a list, from the `i`-th on.
spec fn children_in(rows: Seq<Process>, list: Seq<Process>, pid: i32, i: nat) -> bool {
    forall|k: int| i <= k < children(rows, pid).len() ==> has_pid(list, rows[#[trigger] children(rows, pid)[k]].pid)
}

/// No process is in a list twice.
pub open spec fn listed_once(list: Seq<Process>) -> bool {
    forall|a: int, b: int| 0 <= a < b < list.len() ==> (#[trigger] list[a]).pid != (#[trigger] list[b]).pid
}

/// Every row of a list is one of the given rows.
pub open spec fn drawn_from(list: Seq<Process>, rows: Seq<Process>) -> bool {
    forall|a: int| 0 <= a < list.len() ==> rows.contains(#[trigger] list[a])
}

/// What the walk over a process's children keeps and brings about, given a
/// depth that is enough for the rows not yet listed.
proof fn lemma_walked(rows: Seq<Process>, pid: i32, indent: Seq<char>, i: nat, t: Tree, depth: nat)
    requires
        depth >= lacking(rows, t.rows, rows.len()),
        listed_once(t.rows),
        drawn_from(t.rows, rows),
    ensures
        ({
            let after = walked(rows, pid, indent, i, t, depth).rows;
            &&& listed_once(after)
            &&& drawn_from(after, rows)
            &&& covers(after, t.rows)
            &&& lacking(rows, after, rows.len()) <= lacking(rows, t.rows, rows.len())
            &&& children_in(rows, after, pid, i)
            &&& forall|q: i32| #[trigger] has_pid(after, q) && !has_pid(t.rows, q) ==> children_in(rows, after, q, 0)
        }),
    decreases depth, children(rows, pid).len() - i,
{
    let kids = children(rows, pid);
    if i < kids.len() {
        lemma_child_places(rows, pid, rows.len());
        assert(0 <= kids[i as int] < rows.len());
        let c = rows[kids[i as int]];
        let last = i == kids.len() - 1;
        let after = walked(rows, pid, indent, i, t, depth).rows;
        if has_pid(t.rows, c.pid) {
            lemma_walked(rows, pid, indent, i + 1, t, depth);
            assert(children_in(rows, after, pid, i));
        } else {
            let listed = Tree { rows: t.rows.push(c), prefixes: t.prefixes.push(branch(pid, indent, last)) };
            assert(rows[kids[i as int]] == c);
            lemma_lacking_push(rows, t.rows, c, rows.len());
            assert(depth > 0);
            lemma_listed(rows, t.rows, c);
            let inner = deeper(pid, indent, last);
            lemma_walked(rows, c.pid, inner, 0, listed, (depth - 1) as nat);
            let below = walked(rows, c.pid, inner, 0, listed, (depth - 1) as nat);
            lemma_walked(rows, pid, indent, i + 1, below, depth);
            assert forall|q: i32| #[trigger] has_pid(t.rows, q) implies has_pid(after, q) by {
                lemma_has_pid_push(t.rows, c, q);
                assert(has_pid(listed.rows, q));
                assert(has_pid(below.rows, q));
            }
            lemma_has_pid_push(t.rows, c, c.pid);
            assert(has_pid(listed.rows, c.pid));
            assert(has_pid(below.rows, c.pid));
            assert(has_pid(after, c.pid));
            assert(children_in(rows, after, pid, i)) by {
                assert forall|k: int| i <= k < kids.len() implies has_pid(
                    after,
                    rows[#[trigger] children(rows, pid)[k]].pid,
                ) by {
                    if k > i {
                        assert(children_in(rows, after, pid, i + 1));
                    }
                }
            }
            assert forall|q: i32| #[trigger] has_pid(after, q) && !has_pid(t.rows, q) implies children_in(
                rows,
                after,
                q,
                0,
            ) by {
                if has_pid(below.rows, q) {
                    lemma_has_pid_push(t.rows, c, q);
                    assert(children_in(rows, below.rows, q, 0));
                    assert forall|k: int| 0 <= k < children(rows, q).len() implies has_pid(
                        after,
                        rows[#[trigger] children(rows, q)[k]].pid,
                    ) by {
                        assert(has_pid(below.rows, rows[children(rows, q)[k]].pid));
                    }
                }
            }
        }
    }
}

/// Walking deeper than there are rows left finds nothing more.
proof fn lemma_walked_depth(rows: Seq<Process>, pid: i32, indent: Seq<char>, i: nat, t: Tree, d1: nat, d2: nat)
    requires
        d1 >= lacking(rows, t.rows, rows.len()),
        d2 >= lacking(rows, t.rows, rows.len()),
        listed_once(t.rows),
        drawn_from(t.rows, rows),
    ensures
        walked(rows, pid, indent, i, t, d1) == walked(rows, pid, indent, i, t, d2),
    decreases d1, children(rows, pid).len() - i,
{
    let kids = children(rows, pid);
    if i < kids.len() {
        lemma_child_places(rows, pid, rows.len());
        assert(0 <= kids[i as int] < rows.len());
        let c = rows[kids[i as int]];
        let last = i == kids.len() - 1;
        if has_pid(t.rows, c.pid) {
            lemma_walked_depth(rows, pid, indent, i + 1, t, d1, d2);
        } else {
            let listed = Tree { rows: t.rows.push(c), prefixes: t.prefixes.push(branch(pid, indent, last)) };
            assert(rows[kids[i as int]] == c);
            lemma_lacking_push(rows, t.rows, c, rows.len());
            lemma_listed(rows, t.rows, c);
            let inner = deeper(pid, indent, last);
            lemma_walked(rows, c.pid, inner, 0, listed, (d1 - 1) as nat);
            lemma_walked_depth(rows, c.pid, inner, 0, listed, (d1 - 1) as nat, (d2 - 1) as nat);
            let below = walked(rows, c.pid, inner, 0, listed, (d1 - 1) as nat);
            lemma_walked_depth(rows, pid, indent, i + 1, below, d1, d2);
        }
    }
}

/// The tree lists only rows that were given, no process twice, and every
/// process that stands at the top or under a listed one. However deep it is
/// walked, nothing more is found.
pub proof fn lemma_tree_complete(rows: Seq<Process>, depth: nat)
    ensures
        drawn_from(tree_of(rows).rows, rows),
        listed_once(tree_of(rows).rows),
        tree_of(rows).rows.len() == tree_of(rows).prefixes.len(),
        forall|k: int|
            0 <= k < rows.len() && (parent_of(rows, #[trigger] rows[k]) == 0 || has_pid(
                tree_of(rows).rows,
                parent_of(rows, rows[k]),
            )) ==> has_pid(tree_of(rows).rows, rows[k].pid),
        depth >= rows.len() ==> walked(rows, 0, seq![], 0, Tree { rows: seq![], prefixes: seq![] }, depth) == tree_of(
            rows,
        ),
{
    let none = Tree { rows: seq![], prefixes: seq![] };
    lemma_none_lacking(rows);
    lemma_walked_even(rows, 0, seq![], 0, none, rows.len());
    lemma_walked(rows, 0, seq![], 0, none, rows.len());
    let after = tree_of(rows).rows;
    assert forall|k: int|
        0 <= k < rows.len() && (parent_of(rows, #[trigger] rows[k]) == 0 || has_pid(
            after,
            parent_of(rows, rows[k]),
        )) implies has_pid(after, rows[k].pid) by {
        let up = parent_of(rows, rows[k]);
        lemma_child_places(rows, up, rows.len());
        assert(children(rows, up).contains(k));
        let j = choose|j: int| 0 <= j < children(rows, up).len() && children(rows, up)[j] == k;
        assert(!has_pid(none.rows, up));
        assert(children_in(rows, after, up, 0));
        assert(has_pid(after, rows[children(rows, up)[j]].pid));
    }
    if depth >= rows.len() {
        lemma_walked_depth(rows, 0, seq![], 0, none, depth, rows.len());
    }
}

/// Whether a process stands in a list among the places `from..to`.
pub open spec fn stands_within(list: Seq<Process>, pid: i32, from: int, to: int) -> bool {
    exists|k: int| from <= k < to && (#[trigger] list[k]).pid == pid
}

/// From place `n` on each row stands under a process, or has its parent above
/// it from that place on.
pub open spec fn hung(rows: Seq<Process>, list: Seq<Process>, pid: i32, n: int) -> bool {
    forall|a: int|
        n <= a < list.len() ==> parent_of(rows, #[trigger] list[a]) == pid || stands_within(
            list,
            parent_of(rows, list[a]),
            n,
            a,
        )
}

/// From place `n` on, what stands between a process and a row under it stands
/// below that process too.
pub open spec fn nested(rows: Seq<Process>, list: Seq<Process>, n: int) -> bool {
    forall|p: int, a: int, b: int|
        n <= p < a < b < list.len() && (#[trigger] list[p]).pid == parent_of(rows, #[trigger] list[b]) ==> stands_within(
            list,
            parent_of(rows, #[trigger] list[a]),
            p,
            a,
        )
}

/// Whether two rows stand one after the other.
pub open spec fn in_turn(rows: Seq<Process>, x: Process, y: Process) -> bool {
    exists|j: int, k: int| 0 <= j < k < rows.len() && #[trigger] rows[j] == x && #[trigger] rows[k] == y
}

/// From place `n` on, rows under the same process keep the order of the given
/// rows.
pub open spec fn siblings_in_turn(rows: Seq<Process>, list: Seq<Process>, n: int) -> bool {
    forall|a: int, b: int|
        n <= a < b < list.len() && parent_of(rows, #[trigger] list[a]) == parent_of(rows, #[trigger] list[b]) ==> in_turn(
            rows,
            list[a],
            list[b],
        )
}

/// A list goes on from another.
spec fn goes_on(more: Seq<Process>, list: Seq<Process>) -> bool {
    more.len() >= list.len() && forall|a: int| 0 <= a < list.len() ==> #[trigger] more[a] == list[a]
}

/// Walking over rows that are all listed adds nothing.
proof fn lemma_walked_idle(rows: Seq<Process>, pid: i32, indent: Seq<char>, i: nat, t: Tree, depth: nat)
    requires
        children_in(rows, t.rows, pid, i),
    ensures
        walked(rows, pid, indent, i, t, depth) == t,
    decreases children(rows, pid).len() - i,
{
    if i < children(rows, pid).len() {
        assert(has_pid(t.rows, rows[children(rows, pid)[i as int]].pid));
        lemma_walked_idle(rows, pid, indent, i + 1, t, depth);
    }
}

/// The rows under a process before the `i`-th are all in a list.
spec fn children_before(rows: Seq<Process>, list: Seq<Process>, pid: i32, i: nat) -> bool {
    forall|k: int|
        0 <= k < i && k < children(rows, pid).len() ==> has_pid(list, rows[#[trigger] children(rows, pid)[k]].pid)
}

/// A new row under a process comes after the child that was listed first.
proof fn lemma_later_child(rows: Seq<Process>, list: Seq<Process>, pid: i32, i: nat, n: int, b: int)
    requires
        i < children(rows, pid).len(),
        0 <= n < b < list.len(),
        list[n] == rows[children(rows, pid)[i as int]],
        listed_once(list),
        drawn_from(list, rows),
        children_before(rows, list.take(n), pid, i),
        parent_of(rows, list[b]) == pid,
    ensures
        in_turn(rows, list[n], list[b]),
{
    let kids = children(rows, pid);
    lemma_child_places(rows, pid, rows.len());
    assert(rows.contains(list[b]));
    let k = choose|k: int| 0 <= k < rows.len() && rows[k] == list[b];
    assert(kids.contains(k));
    let j = choose|j: int| 0 <= j < kids.len() && kids[j] == k;
    assert(list[n].pid != list[b].pid);
    assert(j != i);
    if j < i {
        let before = list.take(n);
        assert(has_pid(before, rows[kids[j]].pid));
        let a = choose|a: int| 0 <= a < before.len() && (#[trigger] before[a]).pid == list[b].pid;
        assert(list[a].pid == list[b].pid);
        assert(false);
    }
    assert(kids[i as int] < kids[j]);
    assert(rows[kids[i as int]] == list[n] && rows[kids[j]] == list[b]);
}

/// Where the rows that the walk adds stand.
proof fn lemma_walked_order(rows: Seq<Process>, pid: i32, indent: Seq<char>, i: nat, t: Tree, depth: nat)
    requires
        depth >= lacking(rows, t.rows, rows.len()),
        listed_once(t.rows),
        drawn_from(t.rows, rows),
        children_before(rows, t.rows, pid, i),
    ensures
        ({
            let after = walked(rows, pid, indent, i, t, depth).rows;
            &&& goes_on(after, t.rows)
            &&& hung(rows, after, pid, t.rows.len() as int)
            &&& nested(rows, after, t.rows.len() as int)
            &&& siblings_in_turn(rows, after, t.rows.len() as int)
        }),
    decreases depth, children(rows, pid).len() - i,
{
    let kids = children(rows, pid);
    lemma_walked(rows, pid, indent, i, t, depth);
    if i < kids.len() {
        lemma_child_places(rows, pid, rows.len());
        assert(0 <= kids[i as int] < rows.len());
        let c = rows[kids[i as int]];
        let last = i == kids.len() - 1;
        let after = walked(rows, pid, indent, i, t, depth).rows;
        if has_pid(t.rows, c.pid) {
            lemma_walked_order(rows, pid, indent, i + 1, t, depth);
        } else {
            let listed = Tree { rows: t.rows.push(c), prefixes: t.prefixes.push(branch(pid, indent, last)) };
            lemma_listed(rows, t.rows, c);
            lemma_lacking_push(rows, t.rows, c, rows.len());
            let inner = deeper(pid, indent, last);
            let below = walked(rows, c.pid, inner, 0, listed, (depth - 1) as nat);
            lemma_walked(rows, c.pid, inner, 0, listed, (depth - 1) as nat);
            lemma_walked_order(rows, c.pid, inner, 0, listed, (depth - 1) as nat);
            assert(below.rows[t.rows.len() as int] == listed.rows[t.rows.len() as int]);
            assert(children_before(rows, below.rows, pid, i + 1)) by {
                assert forall|k: int| 0 <= k < i + 1 && k < kids.len() implies has_pid(
                    below.rows,
                    rows[#[trigger] children(rows, pid)[k]].pid,
                ) by {
                    lemma_has_pid_push(t.rows, c, rows[kids[k]].pid);
                    assert(has_pid(listed.rows, rows[kids[k]].pid));
                }
            }
            lemma_walked_order(rows, pid, indent, i + 1, below, depth);
            if has_pid(below.rows, pid) && !has_pid(t.rows, pid) {
                lemma_has_pid_push(t.rows, c, pid);
                assert(children_in(rows, below.rows, pid, 0));
                assert(children_in(rows, below.rows, pid, i + 1));
                lemma_walked_idle(rows, pid, indent, i + 1, below, depth);
            }
            lemma_parts_hung(rows, after, below.rows, t.rows, c, pid);
            lemma_parts_nested(rows, after, below.rows, t.rows, c, pid);
            assert(after.take(t.rows.len() as int) =~= t.rows);
            lemma_parts_in_turn(rows, after, below.rows, t.rows, c, pid, i);
        }
    }
}

/// A row added to a list that lacks its process.
proof fn lemma_listed(rows: Seq<Process>, list: Seq<Process>, c: Process)
    requires
        listed_once(list),
        drawn_from(list, rows),
        rows.contains(c),
        !has_pid(list, c.pid),
    ensures
        listed_once(list.push(c)),
        drawn_from(list.push(c), rows),
{
    let more = list.push(c);
    assert forall|a: int, b: int| 0 <= a < b < more.len() implies (#[trigger] more[a]).pid != (#[trigger] more[b]).pid by {
        if b == list.len() {
            assert(list[a].pid != c.pid);
        } else {
            assert(list[a].pid != list[b].pid);
        }
    }
    assert forall|a: int| 0 <= a < more.len() implies rows.contains(#[trigger] more[a]) by {
        if a < list.len() {
            assert(rows.contains(list[a]));
        }
    }
}

/// A row, what stands below it and the rest: `first` holds the rows before,
/// `below` ends with what stands below `c`, `after` with the rest.
spec fn in_parts(
    rows: Seq<Process>,
    after: Seq<Process>,
    below: Seq<Process>,
    first: Seq<Process>,
    c: Process,
    pid: i32,
) -> bool {
    &&& goes_on(below, first.push(c))
    &&& goes_on(after, below)
    &&& listed_once(after)
    &&& drawn_from(after, rows)
    &&& parent_of(rows, c) == pid
    &&& hung(rows, below, c.pid, first.len() + 1int)
    &&& hung(rows, after, pid, below.len() as int)
    &&& has_pid(below, pid) && !has_pid(first, pid) ==> after == below
}

/// The parts hang together.
proof fn lemma_parts_hung(
    rows: Seq<Process>,
    after: Seq<Process>,
    below: Seq<Process>,
    first: Seq<Process>,
    c: Process,
    pid: i32,
)
    requires
        in_parts(rows, after, below, first, c, pid),
    ensures
        hung(rows, after, pid, first.len() as int),
{
    let n = first.len() as int;
    assert(after[n] == below[n] && below[n] == first.push(c)[n]);
    assert forall|a: int| n <= a < after.len() implies parent_of(rows, #[trigger] after[a]) == pid || stands_within(
        after,
        parent_of(rows, after[a]),
        n,
        a,
    ) by {
        let up = parent_of(rows, after[a]);
        if a > n && a < below.len() {
            assert(after[a] == below[a]);
            if up == c.pid {
                assert(after[n].pid == up);
            } else {
                let k = choose|k: int| n + 1 <= k < a && (#[trigger] below[k]).pid == up;
                assert(after[k] == below[k]);
            }
        } else if a >= below.len() && up != pid {
            let k = choose|k: int| below.len() <= k < a && (#[trigger] after[k]).pid == up;
            assert(after[k].pid == up);
        }
    }
}

/// The parts keep what stands below a process together.
proof fn lemma_parts_nested(
    rows: Seq<Process>,
    after: Seq<Process>,
    below: Seq<Process>,
    first: Seq<Process>,
    c: Process,
    pid: i32,
)
    requires
        in_parts(rows, after, below, first, c, pid),
        nested(rows, below, first.len() + 1int),
        nested(rows, after, below.len() as int),
    ensures
        nested(rows, after, first.len() as int),
{
    let n = first.len() as int;
    let m = below.len() as int;
    assert(after[n] == below[n] && below[n] == first.push(c)[n]);
    assert forall|p: int, a: int, b: int|
        n <= p < a < b < after.len() && (#[trigger] after[p]).pid == parent_of(
            rows,
            #[trigger] after[b],
        ) implies stands_within(after, parent_of(rows, #[trigger] after[a]), p, a) by {
        let up = parent_of(rows, after[a]);
        let q = parent_of(rows, after[b]);
        if b < m {
            assert(after[p] == below[p] && after[a] == below[a] && after[b] == below[b]);
            if p == n {
                if up == c.pid {
                    assert(after[n].pid == up);
                } else {
                    let k = choose|k: int| n + 1 <= k < a && (#[trigger] below[k]).pid == up;
                    assert(after[k] == below[k]);
                }
            } else {
                assert(stands_within(below, up, p, a));
                let k = choose|k: int| p <= k < a && (#[trigger] below[k]).pid == up;
                assert(after[k] == below[k]);
            }
        } else if p < m {
            if q != pid {
                let k = choose|k: int| m <= k < b && (#[trigger] after[k]).pid == q;
                assert(after[p].pid != after[k].pid);
            } else {
                lemma_new_in_below(after, below, first, c, pid, p);
            }
            assert(false);
        }
    }
}

/// A process that stands behind the first rows is none of theirs.
proof fn lemma_new_in_below(
    after: Seq<Process>,
    below: Seq<Process>,
    first: Seq<Process>,
    c: Process,
    pid: i32,
    p: int,
)
    requires
        goes_on(below, first.push(c)),
        goes_on(after, below),
        listed_once(after),
        first.len() <= p < below.len(),
        after[p].pid == pid,
    ensures
        has_pid(below, pid),
        !has_pid(first, pid),
{
    assert(below[p] == after[p]);
    if has_pid(first, pid) {
        let k = choose|k: int| 0 <= k < first.len() && (#[trigger] first[k]).pid == pid;
        assert(first.push(c)[k] == below[k] && below[k] == after[k]);
        assert(after[k].pid != after[p].pid);
    }
}

/// The parts keep siblings in turn.
proof fn lemma_parts_in_turn(
    rows: Seq<Process>,
    after: Seq<Process>,
    below: Seq<Process>,
    first: Seq<Process>,
    c: Process,
    pid: i32,
    i: nat,
)
    requires
        in_parts(rows, after, below, first, c, pid),
        i < children(rows, pid).len(),
        c == rows[children(rows, pid)[i as int]],
        after.take(first.len() as int) == first,
        children_before(rows, first, pid, i),
        siblings_in_turn(rows, below, first.len() + 1int),
        siblings_in_turn(rows, after, below.len() as int),
    ensures
        siblings_in_turn(rows, after, first.len() as int),
{
    let n = first.len() as int;
    let m = below.len() as int;
    assert(after[n] == below[n] && below[n] == first.push(c)[n]);
    assert forall|a: int, b: int|
        n <= a < b < after.len() && parent_of(rows, #[trigger] after[a]) == parent_of(
            rows,
            #[trigger] after[b],
        ) implies in_turn(rows, after[a], after[b]) by {
        let q = parent_of(rows, after[a]);
        if a == n {
            lemma_later_child(rows, after, pid, i, n, b);
        } else if b < m {
            assert(after[a] == below[a] && after[b] == below[b]);
        } else if a < m {
            assert(after[a] == below[a]);
            // The parent stands at `c` or below it.
            let k = if q == c.pid {
                n
            } else {
                choose|k: int| n + 1 <= k < a && (#[trigger] below[k]).pid == q
            };
            assert(n <= k < a && after[k] == below[k] && after[k].pid == q);
            if q != pid {
                let j = choose|j: int| m <= j < b && (#[trigger] after[j]).pid == q;
                assert(after[k].pid != after[j].pid);
            } else {
                lemma_new_in_below(after, below, first, c, pid, k);
            }
            assert(false);
        }
    }
}

/// The tree goes depth first by parentage and keeps the order of siblings:
/// each row stands at the top or below its parent, what stands between a
/// process and a row under it stands below that process too, and rows under
/// the same process stand in the order in which they were given.
pub proof fn lemma_tree_depth_first(rows: Seq<Process>)
    ensures
        hung(rows, tree_of(rows).rows, 0, 0),
        nested(rows, tree_of(rows).rows, 0),
        siblings_in_turn(rows, tree_of(rows).rows, 0),
{
    let none = Tree { rows: seq![], prefixes: seq![] };
    lemma_none_lacking(rows);
    lemma_walked_order(rows, 0, seq![], 0, none, rows.len());
}

/// No more is lacking than there is.
proof fn lemma_none_lacking(rows: Seq<Process>)
    ensures
        lacking(rows, seq![], rows.len()) <= rows.len(),
{
    if rows.len() > 0 {
        lemma_lacking_push(rows, seq![], rows[0], rows.len());
    }
}

/// Whether a chain of at most `k` parents leads from a row to the top.
pub open spec fn rooted(rows: Seq<Process>, r: Process, k: nat) -> bool
    decreases k,
{
    parent_of(rows, r) == 0 || (k > 0 && exists|j: int|
        0 <= j < rows.len() && (#[trigger] rows[j]).pid == parent_of(rows, r) && rooted(rows, rows[j], (k - 1) as nat))
}

/// The tree loses no process whose parents lead to the top.
pub proof fn lemma_tree_lists_rooted(rows: Seq<Process>, r: Process, k: nat)
    requires
        rows.contains(r),
        rooted(rows, r, k),
    ensures
        has_pid(tree_of(rows).rows, r.pid),
    decreases k,
{
    lemma_tree_complete(rows, 0);
    let at = choose|at: int| 0 <= at < rows.len() && rows[at] == r;
    if parent_of(rows, r) != 0 {
        let j = choose|j: int|
            0 <= j < rows.len() && (#[trigger] rows[j]).pid == parent_of(rows, r) && rooted(
                rows,
                rows[j],
                (k - 1) as nat,
            );
        lemma_tree_lists_rooted(rows, rows[j], (k - 1) as nat);
    }
    assert(rows[at] == r);
}

/// Whether a row under the same process comes later.
spec fn later_sibling(rows: Seq<Process>, r: Process) -> bool {
    exists|a: int, b: int|
        0 <= a < b < rows.len() && #[trigger] rows[a] == r && parent_of(rows, #[trigger] rows[b]) == parent_of(rows, r)
}

/// The branch that leads to a row.
spec fn twig(rows: Seq<Process>, r: Process) -> Seq<char> {
    if later_sibling(rows, r) {
        "├─ "@
    } else {
        "└─ "@
    }
}

/// What stands before the branches of the rows under a row with a prefix.
spec fn trunk(rows: Seq<Process>, q: Process, prefix: Seq<char>) -> Seq<char> {
    if parent_of(rows, q) == 0 {
        seq![]
    } else {
        prefix.take(prefix.len() - 3) + if later_sibling(rows, q) {
            "│  "@
        } else {
            "   "@
        }
    }
}

/// Whether a row's prefix goes on from that of a row above it, its parent.
spec fn hangs_from(rows: Seq<Process>, t: Tree, j: int, k: int) -> bool {
    t.rows[j].pid == parent_of(rows, t.rows[k]) && t.prefixes[k] == trunk(rows, t.rows[j], t.prefixes[j]) + twig(
        rows,
        t.rows[k],
    )
}

/// Whether a row's prefix is right: none at the top, else behind an indent or
/// going on from its parent's.
spec fn rightly_prefixed(rows: Seq<Process>, t: Tree, pid: i32, indent: Seq<char>, n: int, k: int) -> bool {
    let up = parent_of(rows, t.rows[k]);
    if up == 0 {
        t.prefixes[k].len() == 0
    } else {
        (up == pid && t.prefixes[k] == indent + twig(rows, t.rows[k])) || exists|j: int|
            n <= j < k && #[trigger] hangs_from(rows, t, j, k)
    }
}

proof fn lemma_twig_lengths()
    ensures
        "├─ "@.len() == 3,
        "└─ "@.len() == 3,
        "│  "@.len() == 3,
        "   "@.len() == 3,
{
    reveal_strlit("├─ ");
    reveal_strlit("└─ ");
    reveal_strlit("│  ");
    reveal_strlit("   ");
}

/// The last of the rows under a process has no later sibling; the others do.
proof fn lemma_last_child(rows: Seq<Process>, pid: i32, i: int)
    requires
        listed_once(rows),
        0 <= i < children(rows, pid).len(),
    ensures
        later_sibling(rows, rows[children(rows, pid)[i]]) == (i < children(rows, pid).len() - 1),
        parent_of(rows, rows[children(rows, pid)[i]]) == pid,
{
    let kids = children(rows, pid);
    lemma_child_places(rows, pid, rows.len());
    let c = rows[kids[i]];
    if i < kids.len() - 1 {
        assert(kids[i] < kids[i + 1]);
        assert(rows[kids[i]] == c && parent_of(rows, rows[kids[i + 1]]) == pid);
    }
    if later_sibling(rows, c) {
        let (a, b) = choose|a: int, b: int|
            0 <= a < b < rows.len() && #[trigger] rows[a] == c && parent_of(rows, #[trigger] rows[b]) == parent_of(
                rows,
                c,
            );
        assert(a == kids[i]) by {
            if a < kids[i] {
                assert(rows[a].pid != rows[kids[i]].pid);
            } else if a > kids[i] {
                assert(rows[kids[i]].pid != rows[a].pid);
            }
        }
        assert(kids.contains(b));
        let j = choose|j: int| 0 <= j < kids.len() && kids[j] == b;
        if j < i {
            assert(kids[j] < kids[i]);
        }
        assert(j > i);
    }
}

/// The prefixes of the rows that the walk adds.
proof fn lemma_walked_prefixes(rows: Seq<Process>, pid: i32, indent: Seq<char>, i: nat, t: Tree, depth: nat)
    requires
        listed_once(rows),
        depth >= lacking(rows, t.rows, rows.len()),
        listed_once(t.rows),
        drawn_from(t.rows, rows),
        t.rows.len() == t.prefixes.len(),
    ensures
        ({
            let u = walked(rows, pid, indent, i, t, depth);
            let n = t.rows.len() as int;
            &&& u.rows.len() == u.prefixes.len()
            &&& goes_on(u.rows, t.rows)
            &&& forall|k: int| 0 <= k < n ==> #[trigger] u.prefixes[k] == t.prefixes[k]
            &&& forall|k: int| n <= k < u.rows.len() ==> #[trigger] rightly_prefixed(rows, u, pid, indent, n, k)
        }),
    decreases depth, children(rows, pid).len() - i,
{
    let kids = children(rows, pid);
    if i < kids.len() {
        lemma_child_places(rows, pid, rows.len());
        assert(0 <= kids[i as int] < rows.len());
        let c = rows[kids[i as int]];
        let last = i == kids.len() - 1;
        let n = t.rows.len() as int;
        if has_pid(t.rows, c.pid) {
            lemma_walked_prefixes(rows, pid, indent, i + 1, t, depth);
        } else {
            let own = branch(pid, indent, last);
            let listed = Tree { rows: t.rows.push(c), prefixes: t.prefixes.push(own) };
            assert(rows[kids[i as int]] == c);
            lemma_lacking_push(rows, t.rows, c, rows.len());
            lemma_listed(rows, t.rows, c);
            lemma_last_child(rows, pid, i as int);
            lemma_twig_lengths();
            let inner = deeper(pid, indent, last);
            lemma_walked(rows, c.pid, inner, 0, listed, (depth - 1) as nat);
            lemma_walked_prefixes(rows, c.pid, inner, 0, listed, (depth - 1) as nat);
            let below = walked(rows, c.pid, inner, 0, listed, (depth - 1) as nat);
            lemma_walked_prefixes(rows, pid, indent, i + 1, below, depth);
            let u = walked(rows, pid, indent, i, t, depth);
            assert(u == walked(rows, pid, indent, i + 1, below, depth));
            assert(below.rows[n] == c && below.prefixes[n] == own);
            assert(u.rows[n] == c && u.prefixes[n] == own);
            assert(inner == trunk(rows, c, own)) by {
                if pid != 0 {
                    assert(own.take(own.len() - 3) =~= indent);
                }
            }
            assert forall|k: int| n <= k < u.rows.len() implies #[trigger] rightly_prefixed(rows, u, pid, indent, n, k) by {
                if k > n && k < below.rows.len() {
                    assert(rightly_prefixed(rows, below, c.pid, inner, n + 1, k));
                    assert(u.rows[k] == below.rows[k] && u.prefixes[k] == below.prefixes[k]);
                    let up = parent_of(rows, u.rows[k]);
                    if up != 0 {
                        if up == c.pid && below.prefixes[k] == inner + twig(rows, below.rows[k]) {
                            assert(hangs_from(rows, u, n, k));
                        } else {
                            let j = choose|j: int| n + 1 <= j < k && #[trigger] hangs_from(rows, below, j, k);
                            assert(u.rows[j] == below.rows[j] && u.prefixes[j] == below.prefixes[j]);
                            assert(hangs_from(rows, u, j, k));
                        }
                    }
                } else if k >= below.rows.len() {
                    assert(rightly_prefixed(rows, u, pid, indent, below.rows.len() as int, k));
                    let up = parent_of(rows, u.rows[k]);
                    if up != 0 && !(up == pid && u.prefixes[k] == indent + twig(rows, u.rows[k])) {
                        let j = choose|j: int| below.rows.len() <= j < k && #[trigger] hangs_from(rows, u, j, k);
                        assert(hangs_from(rows, u, j, k));
                    }
                }
            }
            assert forall|k: int| 0 <= k < n implies #[trigger] u.prefixes[k] == t.prefixes[k] by {
                assert(below.prefixes[k] == listed.prefixes[k]);
            }
            assert forall|k: int| 0 <= k < n implies #[trigger] u.rows[k] == t.rows[k] by {
                assert(below.rows[k] == listed.rows[k]);
            }
        }
    }
}

/// Whether the row at `j` is the parent of the row at `k` in a list.
pub open spec fn is_parent(list: Seq<Process>, j: int, k: int) -> bool {
    0 <= j < list.len() && 0 <= k < list.len() && list[j].pid == list[k].ppid && list[k].ppid != list[k].pid && list[k].ppid
        != 0
}

/// Whether a later row of a list has the same parent as the row at `k`.
pub open spec fn goes_further(list: Seq<Process>, k: int) -> bool {
    exists|m: int|
        k < m < list.len() && (#[trigger] list[m]).ppid == list[k].ppid && list[m].ppid != list[m].pid
}

/// A process has one place.
proof fn lemma_one_place(rows: Seq<Process>, a: int, b: int)
    requires
        listed_once(rows),
        0 <= a < rows.len(),
        0 <= b < rows.len(),
        rows[a].pid == rows[b].pid,
    ensures
        a == b,
{
    if a < b {
        assert(rows[a].pid != rows[b].pid);
    } else if b < a {
        assert(rows[b].pid != rows[a].pid);
    }
}

/// Rows of the tree under one process stand as they were given.
proof fn lemma_tree_turn(rows: Seq<Process>, a: int, b: int)
    requires
        0 <= a < b < tree_of(rows).rows.len(),
        parent_of(rows, tree_of(rows).rows[a]) == parent_of(rows, tree_of(rows).rows[b]),
    ensures
        in_turn(rows, tree_of(rows).rows[a], tree_of(rows).rows[b]),
{
    lemma_tree_depth_first(rows);
}

/// A later row of the list with the same parent is a later sibling.
proof fn lemma_further_is_later(rows: Seq<Process>, k: int)
    requires
        0 <= k < tree_of(rows).rows.len(),
        parent_of(rows, tree_of(rows).rows[k]) != 0,
        goes_further(tree_of(rows).rows, k),
    ensures
        later_sibling(rows, tree_of(rows).rows[k]),
{
    let list = tree_of(rows).rows;
    let m = choose|m: int|
        k < m < list.len() && (#[trigger] list[m]).ppid == list[k].ppid && list[m].ppid != list[m].pid;
    lemma_tree_turn(rows, k, m);
    let (a, b) = choose|a: int, b: int|
        0 <= a < b < rows.len() && #[trigger] rows[a] == list[k] && #[trigger] rows[b] == list[m];
    assert(rows[a] == list[k] && parent_of(rows, rows[b]) == parent_of(rows, list[k]));
}

/// The place in the tree of a given row under a listed process.
proof fn lemma_tree_place(rows: Seq<Process>, b: int) -> (m: int)
    requires
        listed_once(rows),
        0 <= b < rows.len(),
        has_pid(tree_of(rows).rows, parent_of(rows, rows[b])),
    ensures
        0 <= m < tree_of(rows).rows.len(),
        tree_of(rows).rows[m] == rows[b],
{
    let list = tree_of(rows).rows;
    lemma_tree_complete(rows, 0);
    assert(has_pid(list, rows[b].pid));
    let m = choose|m: int| 0 <= m < list.len() && (#[trigger] list[m]).pid == rows[b].pid;
    assert(rows.contains(list[m]));
    let c = choose|c: int| 0 <= c < rows.len() && rows[c] == list[m];
    lemma_one_place(rows, c, b);
    m
}

/// A later sibling is a later row of the list with the same parent.
proof fn lemma_goes_further(rows: Seq<Process>, k: int)
    requires
        listed_once(rows),
        0 <= k < tree_of(rows).rows.len(),
        parent_of(rows, tree_of(rows).rows[k]) != 0,
        has_pid(tree_of(rows).rows, parent_of(rows, tree_of(rows).rows[k])),
    ensures
        goes_further(tree_of(rows).rows, k) == later_sibling(rows, tree_of(rows).rows[k]),
{
    let list = tree_of(rows).rows;
    let r = list[k];
    if goes_further(list, k) {
        lemma_further_is_later(rows, k);
    }
    if later_sibling(rows, r) {
        let (a, b) = choose|a: int, b: int|
            0 <= a < b < rows.len() && #[trigger] rows[a] == r && parent_of(rows, #[trigger] rows[b]) == parent_of(
                rows,
                r,
            );
        let m = lemma_tree_place(rows, b);
        if m == k {
            lemma_one_place(rows, a, b);
        } else if m < k {
            lemma_tree_turn(rows, m, k);
            let (x, y) = choose|x: int, y: int|
                0 <= x < y < rows.len() && #[trigger] rows[x] == list[m] && #[trigger] rows[y] == list[k];
            lemma_one_place(rows, x, b);
            lemma_one_place(rows, y, a);
        }
        assert(list[m].ppid == list[k].ppid && list[m].ppid != list[m].pid);
    }
}

/// Whether the prefix of the row at `k` goes on from that of its parent, the
/// row at `j`: first what stands before the parent, where the parent's own
/// branch has become a line down to its later siblings or blank where it has
/// none; then a branch that goes further where the row has a later sibling and
/// ends where it has none.
pub open spec fn goes_on_from(list: Seq<Process>, prefixes: Seq<Seq<char>>, j: int, k: int) -> bool {
    let (own, above) = (prefixes[k], prefixes[j]);
    &&& j < k
    &&& own.len() == above.len() + 3
    &&& own.skip(above.len() as int) == if goes_further(list, k) {
        "├─ "@
    } else {
        "└─ "@
    }
    &&& above.len() > 0 ==> own.take(above.len() as int) == above.take(above.len() - 3) + if goes_further(list, j) {
        "│  "@
    } else {
        "   "@
    }
}

/// What a tree view draws before its rows: nothing before a row whose parent
/// is not listed, and before any other row what goes on from its parent's. So
/// each level is three characters deeper than the one above it.
pub open spec fn drawn_as_tree(list: Seq<Process>, prefixes: Seq<Seq<char>>) -> bool {
    &&& prefixes.len() == list.len()
    &&& forall|k: int|
        0 <= k < list.len() && (forall|j: int| !#[trigger] is_parent(list, j, k)) ==> (#[trigger] prefixes[k]).len() == 0
    &&& forall|j: int, k: int| #[trigger] is_parent(list, j, k) ==> goes_on_from(list, prefixes, j, k)
}

/// The prefix of a row at the top, and of one that hangs from another.
proof fn lemma_tree_prefix(rows: Seq<Process>, k: int) -> (j: int)
    requires
        listed_once(rows),
        0 <= k < tree_of(rows).rows.len(),
    ensures
        tree_of(rows).rows.len() == tree_of(rows).prefixes.len(),
        parent_of(rows, tree_of(rows).rows[k]) == 0 ==> tree_of(rows).prefixes[k].len() == 0,
        parent_of(rows, tree_of(rows).rows[k]) != 0 ==> 0 <= j < k && hangs_from(rows, tree_of(rows), j, k),
{
    let none = Tree { rows: seq![], prefixes: seq![] };
    let t = tree_of(rows);
    lemma_none_lacking(rows);
    lemma_walked_prefixes(rows, 0, seq![], 0, none, rows.len());
    assert(rightly_prefixed(rows, t, 0, seq![], 0, k));
    choose|j: int| 0 <= j < k && #[trigger] hangs_from(rows, t, j, k)
}

/// The prefix of a row goes on from its parent's.
proof fn lemma_child_prefix(rows: Seq<Process>, j: int, k: int)
    requires
        listed_once(rows),
        is_parent(tree_of(rows).rows, j, k),
    ensures
        goes_on_from(tree_of(rows).rows, tree_of(rows).prefixes, j, k),
{
    let t = tree_of(rows);
    let list = t.rows;
    lemma_parent_listed(rows, j, k);
    let i = lemma_tree_prefix(rows, k);
    assert(i == j) by {
        lemma_tree_complete(rows, 0);
        if i < j {
            assert(list[i].pid != list[j].pid);
        } else if j < i {
            assert(list[j].pid != list[i].pid);
        }
    }
    lemma_twig_lengths();
    lemma_goes_further(rows, k);
    let own = t.prefixes[j];
    let h = lemma_tree_prefix(rows, j);
    if parent_of(rows, list[j]) == 0 {
        assert(t.prefixes[k] =~= twig(rows, list[k]));
        assert(t.prefixes[k].skip(0) =~= t.prefixes[k]);
    } else {
        assert(list[h].pid == parent_of(rows, list[j]));
        lemma_goes_further(rows, j);
        let stem = trunk(rows, list[j], own);
        assert(own.len() >= 3);
        assert(stem.len() == own.len());
        assert(t.prefixes[k] =~= stem + twig(rows, list[k]));
        assert(t.prefixes[k].take(own.len() as int) =~= stem);
        assert(t.prefixes[k].skip(own.len() as int) =~= twig(rows, list[k]));
    }
}

/// The tree of rows without a process twice is drawn as a tree.
proof fn lemma_tree_drawn(rows: Seq<Process>)
    requires
        listed_once(rows),
    ensures
        drawn_as_tree(tree_of(rows).rows, tree_of(rows).prefixes),
{
    let t = tree_of(rows);
    let list = t.rows;
    assert(t.prefixes.len() == list.len()) by {
        lemma_tree_complete(rows, 0);
    }
    assert forall|k: int|
        0 <= k < list.len() && (forall|j: int| !#[trigger] is_parent(list, j, k)) implies (#[trigger] t.prefixes[k]).len()
        == 0 by {
        let j = lemma_tree_prefix(rows, k);
        if parent_of(rows, list[k]) != 0 {
            assert(is_parent(list, j, k));
        }
    }
    assert forall|j: int, k: int| #[trigger] is_parent(list, j, k) implies goes_on_from(list, t.prefixes, j, k) by {
        lemma_child_prefix(rows, j, k);
    }
}

/// A row's parent in the list is its parent in the tree.
proof fn lemma_parent_listed(rows: Seq<Process>, j: int, k: int)
    requires
        is_parent(tree_of(rows).rows, j, k),
    ensures
        parent_of(rows, tree_of(rows).rows[k]) == tree_of(rows).rows[k].ppid,
        has_pid(tree_of(rows).rows, tree_of(rows).rows[k].ppid),
{
    let list = tree_of(rows).rows;
    lemma_tree_complete(rows, 0);
    assert(rows.contains(list[j]));
    let c = choose|c: int| 0 <= c < rows.len() && rows[c] == list[j];
    assert(rows[c].pid == list[k].ppid);
    assert(list[j].pid == list[k].ppid);
}

/// Sorting lists no process twice.
proof fn lemma_arranged_once(s: Seq<Process>, before: spec_fn(Process, Process) -> bool)
    requires
        listed_once(s),
    ensures
        listed_once(arranged(s, before)),
    decreases s.len(),
{
    if s.len() > 0 {
        let front = s.drop_last();
        let x = s.last();
        assert forall|a: int, b: int| 0 <= a < b < front.len() implies (#[trigger] front[a]).pid != (#[trigger] front[b]).pid by {
            assert(s[a].pid != s[b].pid);
        }
        lemma_arranged_once(front, before);
        let v = arranged(front, before);
        let k = slot(v, x, before);
        crate::sort::lemma_slot_range(v, x, before);
        let out = v.insert(k, x);
        assert forall|i: int| 0 <= i < v.len() implies (#[trigger] v[i]).pid != x.pid by {
            assert(v.contains(v[i]));
            lemma_arranged_keeps(front, before, v[i]);
            let c = choose|c: int| 0 <= c < front.len() && front[c] == v[i];
            assert(s[c].pid != s[s.len() - 1].pid);
        }
        assert forall|a: int, b: int| 0 <= a < b < out.len() implies (#[trigger] out[a]).pid != (#[trigger] out[b]).pid by {
            let a2 = if a < k {
                a
            } else {
                a - 1
            };
            let b2 = if b < k {
                b
            } else {
                b - 1
            };
            if a != k && b != k {
                assert(out[a] == v[a2] && out[b] == v[b2]);
                assert(v[a2].pid != v[b2].pid);
            } else if a == k {
                assert(out[b] == v[b2]);
                assert(v[b2].pid != x.pid);
            } else {
                assert(out[a] == v[a2]);
                assert(v[a2].pid != x.pid);
            }
        }
    }
}

/// Leaving rows out lists no process twice.
proof fn lemma_filtered_once(s: Seq<Process>, pass: spec_fn(Process) -> bool)
    requires
        listed_once(s),
    ensures
        listed_once(s.filter(pass)),
    decreases s.len(),
{
    reveal(Seq::filter);
    if s.len() > 0 {
        let front = s.drop_last();
        assert forall|a: int, b: int| 0 <= a < b < front.len() implies (#[trigger] front[a]).pid != (#[trigger] front[b]).pid by {
            assert(s[a].pid != s[b].pid);
        }
        lemma_filtered_once(front, pass);
        let v = front.filter(pass);
        if pass(s.last()) {
            let out = v.push(s.last());
            assert forall|a: int, b: int| 0 <= a < b < out.len() implies (#[trigger] out[a]).pid != (
            #[trigger] out[b]).pid by {
                if b < v.len() {
                    assert(v[a].pid != v[b].pid);
                } else {
                    assert(v.contains(v[a]));
                    lemma_filtered(front, pass, v[a]);
                    let c = choose|c: int| 0 <= c < front.len() && front[c] == v[a];
                    assert(s[c].pid != s[s.len() - 1].pid);
                }
            }
        }
    }
}

/// A snapshot without a process twice is shown as a tree where that is wanted
/// and nothing is searched for or left out: every row hangs below its parent,
/// three characters deeper, and a line joins each row to its later siblings.
pub proof fn lemma_tree_view(t: ProcTableModel, all: Seq<Process>)
    requires
        listed_once(all),
        t.with_rows(all).prefixes is Some,
    ensures
        drawn_as_tree(t.with_rows(all).rows, t.with_rows(all).prefixes->0),
{
    reveal(ProcTableModel::with_rows);
    let pass = |r: Process| passes(r, lowered(t.search), t.mine_only, t.mine_user);
    lemma_filtered_once(all, pass);
    lemma_arranged_once(passing(all, lowered(t.search), t.mine_only, t.mine_user), row_order(t.sort_by, t.asc));
    lemma_tree_drawn(t.listing(all));
}

/// The mark of the sorted column's direction.
pub open spec fn sort_mark(asc: bool) -> Seq<char> {
    if asc {
        "▲"@
    } else {
        "▼"@
    }
}

/// The mark of the sorted column's direction.
pub fn direction_mark(asc: bool) -> (r: &'static str)
    ensures
        r@ == sort_mark(asc),
{
    if asc {
        "▲"
    } else {
        "▼"
    }
}

/// A header with the sorted column's head set off; where that has been cut
/// away, the header alone.
pub open spec fn set_off(header: Seq<char>, label: Seq<char>, ink: Style, chip: Style) -> Seq<char> {
    match find(header, label) {
        Some(b) => ink.rendered(header.take(b)) + chip.rendered(label) + ink.rendered(header.skip(b + label.len())),
        None => ink.rendered(header),
    }
}

/// A header with the sorted column's head set off.
pub fn set_off_label(header: &str, label: &str, ink: Style, chip: Style) -> (r: String)
    ensures
        r@ == set_off(header@, label@, ink, chip),
{
    let c: Vec<char> = chars_of(header);
    let q: Vec<char> = chars_of(label);
    match find_in(&c, &q) {
        Some(b) => {
            let n: usize = c.len();
            let head = string_of(&c, 0, b);
            let tail = string_of(&c, b + q.len(), n);
            proof {
                assert(head@ =~= header@.take(b as int));
                assert(tail@ =~= header@.skip(b + label@.len()));
            }
            joined3(ink.render(head.as_str()).as_str(), chip.render(label).as_str(), ink.render(tail.as_str()).as_str())
        },
        None => ink.render(header),
    }
}

/// A part of a row, as far as it goes.
pub open spec fn part(line: Seq<char>, a: int, b: int) -> Seq<char> {
    let from = if a < line.len() {
        a
    } else {
        line.len() as int
    };
    let to = if b < line.len() {
        b
    } else {
        line.len() as int
    };
    line.subrange(from, to)
}

/// A part of a row in a color, as far as it goes.
pub open spec fn tinted(line: Seq<char>, a: int, b: int, color: u8) -> Seq<char> {
    if part(line, a, b).len() == 0 {
        seq![]
    } else {
        Style::ink(color).rendered(part(line, a, b))
    }
}

fn cut_part(c: &Vec<char>, a: usize, b: usize) -> (r: String)
    requires
        a <= b,
    ensures
        r@ == part(c@, a as int, b as int),
{
    let n: usize = c.len();
    string_of(
        c,
        if a < n {
            a
        } else {
            n
        },
        if b < n {
            b
        } else {
            n
        },
    )
}

fn tint_part(c: &Vec<char>, a: usize, b: usize, color: u8) -> (r: String)
    requires
        a <= b,
    ensures
        r@ == tinted(c@, a as int, b as int, color),
{
    let s = cut_part(c, a, b);
    if s.as_str().is_empty() {
        let none = String::new();
        proof {
            assert(none@ =~= seq![]);
        }
        none
    } else {
        Style::new().fg(color).render(s.as_str())
    }
}

/// A row with its fixed columns tinted.
pub open spec fn colorized(line: Seq<char>, r: Process, show_gpu: bool) -> Seq<char> {
    let end = if line.len() > 55 {
        line.len() as int
    } else {
        55
    };
    let fixed = tinted(line, 0, 7, GRAY) + part(line, 7, 8) + tinted(line, 8, 16, CYAN) + part(line, 16, 17) + tinted(
        line,
        17,
        23,
        load_light(r.cpu_percent),
    ) + part(line, 23, 24) + tinted(line, 24, 30, load_light(r.mem_percent)) + part(line, 30, 31) + tinted(
        line,
        31,
        39,
        WHITE,
    ) + part(line, 39, 40);
    if show_gpu {
        fixed + tinted(line, 40, 45, GPU_COLOR) + part(line, 45, 46) + tinted(line, 46, 54, GPU_MEM_COLOR) + part(
            line,
            54,
            55,
        ) + tinted(line, 55, end, GREEN)
    } else {
        fixed + tinted(line, 40, end, GREEN)
    }
}

impl ProcTableModel {
    /// The head of a column, with the mark where it is sorted.
    pub open spec fn column(self, by: ProcSort) -> Seq<char> {
        if self.sort_by == by {
            by.head() + sort_mark(self.asc)
        } else {
            by.head()
        }
    }

    /// The header line.
    pub open spec fn header(self) -> Seq<char> {
        let fixed = right_aligned("PID"@, 7) + " "@ + left_aligned("USER"@, 8) + " "@ + right_aligned(
            self.column(ProcSort::Cpu),
            6,
        ) + " "@ + right_aligned(self.column(ProcSort::Mem), 6) + " "@ + right_aligned("RSS"@, 8);
        (if self.show_gpu {
            fixed + " "@ + right_aligned(self.column(ProcSort::Gpu), 5) + " "@ + right_aligned("VRAM"@, 8)
        } else {
            fixed
        }) + " COMMAND"@
    }

    /// The header as it is shown.
    pub open spec fn styled_head(self, w: nat) -> Seq<char> {
        set_off(fitted(self.header(), w), self.column(self.sort_by), header_ink(), chip_ink())
    }

    /// The line of a process. A dash stands for no GPU work now.
    pub open spec fn line(self, r: Process, prefix: Seq<char>) -> Seq<char> {
        let fixed = right_aligned(signed_numeral(r.pid as int), 7) + " "@ + fitted(r.user@, 8) + " "@ + right_aligned(
            r.cpu_percent.fixed(1),
            6,
        ) + " "@ + right_aligned(r.mem_percent.fixed(1), 6) + " "@ + right_aligned(bytes_text(r.rss as nat), 8);
        (if self.show_gpu {
            fixed + " "@ + right_aligned(
                if Num::spec_zero().less(r.gpu_percent) {
                    r.gpu_percent.fixed(0)
                } else {
                    "-"@
                },
                5,
            ) + " "@ + right_aligned(
                if r.gpu_mem > 0 {
                    bytes_text(r.gpu_mem as nat)
                } else {
                    "-"@
                },
                8,
            )
        } else {
            fixed
        }) + " "@ + prefix + r.command@
    }

    /// The branch prefix of a row.
    pub open spec fn prefix(self, i: int) -> Seq<char> {
        match self.prefixes {
            Some(p) => p[i],
            None => ""@,
        }
    }

    /// A row as it is shown.
    pub open spec fn styled_row(self, i: int, w: nat) -> Seq<char> {
        let line = fitted(self.line(self.rows[i], self.prefix(i)), w);
        if i == self.sel_idx {
            selected_ink().rendered(line)
        } else {
            colorized(line, self.rows[i], self.show_gpu)
        }
    }

    /// The table after it has been shown in `h` lines: the selection is in
    /// view.
    pub open spec fn viewed(self, w: nat, h: nat) -> ProcTableModel {
        if w < 1 || h < 2 {
            self
        } else {
            let rows = (h - 1) as nat;
            ProcTableModel {
                last_visible: rows,
                scroll: scrolled(self.rows.len(), rows, self.sel_idx, self.scroll),
                ..self
            }
        }
    }

    /// How many rows are in view.
    pub open spec fn rows_in_view(self, h: nat) -> nat {
        if self.scroll >= self.rows.len() {
            0
        } else if self.rows.len() - self.scroll < h - 1 {
            (self.rows.len() - self.scroll) as nat
        } else {
            (h - 1) as nat
        }
    }

    /// The lines of a table that has been brought into view: the header, then
    /// as many rows as fit.
    pub open spec fn lines(self, w: nat, h: nat) -> Seq<Seq<char>> {
        if w < 1 || h < 2 {
            seq![]
        } else {
            seq![self.styled_head(w)] + Seq::new(self.rows_in_view(h), |i: int| self.styled_row(self.scroll + i, w))
        }
    }

    /// The title above the table.
    pub open spec fn title(self) -> Seq<char> {
        let a = "PROCESSES "@ + numeral(self.rows.len()) + "   sort: "@ + self.sort_by.name();
        let b = if self.tree && self.prefixes is Some {
            a + "   tree"@
        } else {
            a
        };
        let c = if self.mine_only {
            b + "   user: "@ + self.mine_user
        } else {
            b
        };
        if self.search.len() > 0 {
            c + "   search: "@ + quoted(self.search)
        } else {
            c
        }
    }

    /// Whether the head of a column stands at place `x`, or just left of it.
    pub open spec fn hits(self, by: ProcSort, x: int) -> bool {
        match find(self.header(), by.head()) {
            Some(start) => start <= x < start + 5,
            None => false,
        }
    }

    /// The column whose head stands at place `x`.
    pub open spec fn sort_hit(self, x: int) -> Option<ProcSort> {
        if self.hits(ProcSort::Cpu, x) {
            Some(ProcSort::Cpu)
        } else if self.hits(ProcSort::Mem, x) {
            Some(ProcSort::Mem)
        } else if self.show_gpu && self.hits(ProcSort::Gpu, x) {
            Some(ProcSort::Gpu)
        } else {
            None
        }
    }
}

impl ProcTable {
    pub fn new() -> (r: ProcTable)
        ensures
            r.model() == ProcTableModel::empty(),
    {
        let t = ProcTable {
            sort_by: ProcSort::Cpu,
            asc: false,
            search: String::new(),
            tree: false,
            mine_only: false,
            mine_user: String::new(),
            show_gpu: false,
            rows: Vec::new(),
            prefixes: None,
            sel_pid: 0,
            sel_idx: 0,
            scroll: 0,
            last_visible: 20,
        };
        proof {
            assert(t.search@ =~= seq![]);
            assert(t.rows@ =~= seq![]);
            assert(t.mine_user@ =~= seq![]);
        }
        t
    }

    /// Filters, sorts and installs a fresh snapshot, keeping the selection
    /// pinned to the same process when it survives. Searching or the user
    /// filter leaves the view flat.
    pub fn set_rows(&mut self, all: &Vec<Process>)
        ensures
            final(self).model() == old(self).model().with_rows(all@),
            final(self).model().wf(),
            old(self).search@.len() > 0 || old(self).mine_only ==> final(self).prefixes is None,
    {
        let query = lowercase(self.search.as_str());
        let ghost t0 = self.model();
        let flat = self.sorted_rows(all, query.as_str());
        if self.tree && query.as_str().is_empty() && !self.mine_only {
            let (rows, prefixes) = tree_order(&flat);
            self.rows = rows;
            self.prefixes = Some(prefixes);
        } else {
            self.rows = flat;
            self.prefixes = None;
        }
        let ghost t1 = self.model();
        proof {
            reveal(ProcTableModel::with_rows);
            let f = t0.listing(all@);
            assert(t1 == if t0.treed() {
                ProcTableModel { rows: tree_of(f).rows, prefixes: Some(tree_of(f).prefixes), ..t0 }
            } else {
                ProcTableModel { rows: f, prefixes: None, ..t0 }
            });
            lemma_place_of_pid(t1.rows, t1.sel_pid, 0);
        }
        self.reselect();
    }

    /// The rows that pass the filters, in order.
    fn sorted_rows(&self, all: &Vec<Process>, query: &str) -> (r: Vec<Process>)
        requires
            query@ == lowered(self.search@),
        ensures
            r@ == self.model().listing(all@),
    {
        let ghost pass = |r: Process| passes(r, query@, self.mine_only, self.mine_user@);
        let ghost order = row_order(self.sort_by, self.asc);
        let mut rows: Vec<Process> = Vec::new();
        let mut i: usize = 0;
        proof {
            reveal(Seq::filter);
            assert(all@.take(0).filter(pass) =~= seq![]);
            assert(rows@ =~= arranged(all@.take(0).filter(pass), order));
        }
        while i < all.len()
            invariant
                i <= all@.len(),
                query@ == lowered(self.search@),
                pass == (|r: Process| passes(r, query@, self.mine_only, self.mine_user@)),
                order == row_order(self.sort_by, self.asc),
                rows@ == arranged(all@.take(i as int).filter(pass), order),
            decreases all@.len() - i,
        {
            let r = &all[i];
            let ghost before = all@.take(i as int).filter(pass);
            proof {
                reveal(Seq::filter);
                assert(all@.take(i + 1).drop_last() =~= all@.take(i as int));
                assert(all@.take(i + 1).last() == *r);
            }
            let ok = (query.is_empty() || matches(r, query)) && (!self.mine_only || same(
                r.user.as_str(),
                self.mine_user.as_str(),
            ));
            if ok {
                proof {
                    assert(pass(*r));
                    assert(before.push(*r).drop_last() =~= before);
                }
                place_row(&mut rows, r.copy(), self.sort_by, self.asc);
            }
            i = i + 1;
        }
        proof {
            assert(all@.take(all@.len() as int) =~= all@);
        }
        rows
    }

    /// Re-finds the selected process; if it vanished, keeps the same place.
    fn reselect(&mut self)
        ensures
            final(self).model() == old(self).model().reselected(),
            final(self).rows == old(self).rows,
            final(self).prefixes == old(self).prefixes,
    {
        let n: usize = self.rows.len();
        let mut i: usize = 0;
        while i < n && self.rows[i].pid != self.sel_pid
            invariant
                i <= n,
                n == self.rows@.len(),
                *self == *old(self),
                place_of_pid(self.rows@, self.sel_pid, 0) == place_of_pid(self.rows@, self.sel_pid, i as int),
            decreases n - i,
        {
            i = i + 1;
        }
        if i < n {
            self.sel_idx = i;
        } else {
            if self.sel_idx >= n {
                self.sel_idx = if n == 0 {
                    0
                } else {
                    n - 1
                };
            }
            self.sel_pid = if self.sel_idx < n {
                self.rows[self.sel_idx].pid
            } else {
                0
            };
        }
        proof {
            assert(self.model() == old(self).model().reselected());
        }
    }

    /// Takes over what to search for.
    pub fn look_for(&mut self, query: String)
        ensures
            final(self).model() == (ProcTableModel { search: query@, ..old(self).model() }),
    {
        self.search = query;
    }

    /// Takes over the order, the tree view and the own-processes filter.
    pub fn prefer(&mut self, sort_by: ProcSort, asc: bool, tree: bool, mine_only: bool)
        ensures
            final(self).model() == (ProcTableModel { sort_by, asc, tree, mine_only, ..old(self).model() }),
    {
        self.sort_by = sort_by;
        self.asc = asc;
        self.tree = tree;
        self.mine_only = mine_only;
    }

    pub fn title(&self) -> (r: String)
        ensures
            r@ == self.model().title(),
    {
        let mut out = "PROCESSES ".to_owned();
        out.append(numeral_of(self.rows.len() as u64).as_str());
        out.append("   sort: ");
        out.append(self.sort_by.as_str());
        if self.tree && self.prefixes.is_some() {
            out.append("   tree");
        }
        if self.mine_only {
            out.append("   user: ");
            out.append(self.mine_user.as_str());
        }
        if !self.search.as_str().is_empty() {
            out.append("   search: ");
            out.append(quote(self.search.as_str()).as_str());
        }
        out
    }

    fn shift(&mut self, delta: i128)
        ensures
            final(self).model() == old(self).model().moved(delta as int),
            final(self).rows == old(self).rows,
            old(self).model().wf() ==> final(self).model().wf(),
    {
        proof {
            reveal(ProcTableModel::moved);
        }
        let n: usize = self.rows.len();
        if n == 0 {
            return;
        }
        self.sel_idx = move_place(self.sel_idx, delta, n);
        self.sel_pid = self.rows[self.sel_idx].pid;
        proof {
            assert(self.model() == old(self).model().moved(delta as int));
        }
    }

    pub fn move_by(&mut self, delta: i64)
        ensures
            final(self).model() == old(self).model().moved(delta as int),
            final(self).rows == old(self).rows,
            old(self).model().wf() ==> final(self).model().wf(),
    {
        self.shift(delta as i128);
    }

    pub fn select_first(&mut self)
        ensures
            final(self).model() == old(self).model().at_first(),
            old(self).model().wf() ==> final(self).model().wf(),
    {
        self.sel_idx = 0;
        self.scroll = 0;
        self.sel_pid = if self.rows.len() > 0 {
            self.rows[0].pid
        } else {
            0
        };
        proof {
            assert(self.model() == old(self).model().at_first());
        }
    }

    pub fn page(&mut self, dir: i64)
        ensures
            final(self).model() == old(self).model().moved(dir * old(self).last_visible),
            old(self).model().wf() ==> final(self).model().wf(),
    {
        let delta: i128 = page_delta(dir, self.last_visible);
        self.shift(delta);
    }

    pub fn home(&mut self)
        ensures
            final(self).model() == old(self).model().moved(-(old(self).rows@.len() as int)),
            old(self).model().wf() ==> final(self).model().wf(),
    {
        let n: usize = self.rows.len();
        self.shift(-(n as i128));
    }

    pub fn end(&mut self)
        ensures
            final(self).model() == old(self).model().moved(old(self).rows@.len() as int),
            old(self).model().wf() ==> final(self).model().wf(),
    {
        let n: usize = self.rows.len();
        self.shift(n as i128);
    }

    /// Moves the selection.
    pub fn travel(&mut self, t: Travel)
        ensures
            final(self).model() == old(self).model().moved(t.distance(old(self).last_visible as nat, old(self).rows@.len())),
            old(self).model().wf() ==> final(self).model().wf(),
    {
        match t {
            Travel::Down => self.move_by(1),
            Travel::Up => self.move_by(-1),
            Travel::PageDown => self.page(1),
            Travel::PageUp => self.page(-1),
            Travel::Home => self.home(),
            Travel::End => self.end(),
        }
    }

    fn hit(&self, header: &Vec<char>, by: ProcSort, x: i64) -> (r: bool)
        requires
            header@ == self.model().header(),
        ensures
            r == self.model().hits(by, x as int),
    {
        let q: Vec<char> = chars_of(by.column_label());
        match find_in(header, &q) {
            Some(start) => (start as i128) <= x as i128 && (x as i128) < start as i128 + 5,
            None => false,
        }
    }

    /// Maps an x offset inside the table's inner width to the sort column
    /// whose header label sits there.
    pub fn sort_hit_at(&self, x: i64) -> (r: Option<ProcSort>)
        ensures
            r == self.model().sort_hit(x as int),
    {
        let header: Vec<char> = chars_of(self.header_line().as_str());
        if self.hit(&header, ProcSort::Cpu, x) {
            Some(ProcSort::Cpu)
        } else if self.hit(&header, ProcSort::Mem, x) {
            Some(ProcSort::Mem)
        } else if self.show_gpu && self.hit(&header, ProcSort::Gpu, x) {
            Some(ProcSort::Gpu)
        } else {
            None
        }
    }

    /// Moves the selection to the offset-th data row of the current viewport
    /// (0 = first row below the header).
    pub fn select_visible(&mut self, offset: i64) -> (r: bool)
        ensures
            r == old(self).model().can_select(offset as int),
            final(self).model() == old(self).model().selecting(offset as int),
            old(self).model().wf() ==> final(self).model().wf(),
    {
        if offset < 0 || offset as i128 >= self.last_visible as i128 {
            return false;
        }
        let idx: i128 = self.scroll as i128 + offset as i128;
        if idx >= self.rows.len() as i128 {
            return false;
        }
        self.sel_idx = idx as usize;
        self.sel_pid = self.rows[self.sel_idx].pid;
        proof {
            assert(self.model() == old(self).model().selecting(offset as int));
        }
        true
    }

    pub fn selected(&self) -> (r: Option<&Process>)
        ensures
            match r {
                Some(p) => self.model().selection() == Some(*p),
                None => self.model().selection() is None,
            },
    {
        if self.sel_idx < self.rows.len() {
            Some(&self.rows[self.sel_idx])
        } else {
            None
        }
    }

    /// Renders the header plus as many rows as fit into `w` by `h` cells.
    pub fn view(&mut self, w: usize, h: usize) -> (r: Vec<String>)
        requires
            old(self).model().wf(),
        ensures
            final(self).model() == old(self).model().viewed(w as nat, h as nat),
            final(self).model().wf(),
            final(self).rows == old(self).rows,
            texts(r@) == final(self).model().lines(w as nat, h as nat),
    {
        broadcast use group_texts;

        let mut lines: Vec<String> = Vec::new();
        if w < 1 || h < 2 {
            proof {
                assert(texts(lines@) =~= seq![]);
            }
            return lines;
        }
        let visible: usize = h - 1;
        self.last_visible = visible;
        self.scroll = scroll_to(self.rows.len(), visible, self.sel_idx, self.scroll);
        proof {
            assert(self.model() == old(self).model().viewed(w as nat, h as nat));
        }
        let ghost t = self.model();
        lines.push(self.styled_header(w));
        let n: usize = self.rows.len();
        let count: usize = if self.scroll >= n {
            0
        } else if n - self.scroll < visible {
            n - self.scroll
        } else {
            visible
        };
        let mut i: usize = 0;
        proof {
            assert(texts(lines@) =~= seq![t.styled_head(w as nat)] + Seq::new(
                0,
                |k: int| t.styled_row(t.scroll + k, w as nat),
            ));
        }
        while i < count
            invariant
                i <= count,
                count == t.rows_in_view(h as nat),
                t == self.model(),
                t.wf(),
                n == self.rows@.len(),
                self.rows == old(self).rows,
                count > 0 ==> self.scroll + count <= n,
                texts(lines@) == seq![t.styled_head(w as nat)] + Seq::new(
                    i as nat,
                    |k: int| t.styled_row(t.scroll + k, w as nat),
                ),
            decreases count - i,
        {
            broadcast use group_texts;

            let ri: usize = self.scroll + i;
            let line = self.styled_row(ri, w);
            let ghost before = texts(lines@);
            lines.push(line);
            proof {
                assert(texts(lines@) =~= seq![t.styled_head(w as nat)] + Seq::new(
                    (i + 1) as nat,
                    |k: int| t.styled_row(t.scroll + k, w as nat),
                ));
            }
            i = i + 1;
        }
        lines
    }

    fn styled_row(&self, i: usize, w: usize) -> (r: String)
        requires
            i < self.rows@.len(),
            self.model().wf(),
        ensures
            r@ == self.model().styled_row(i as int, w as nat),
    {
        let r = &self.rows[i];
        let text = match &self.prefixes {
            Some(p) => {
                proof {
                    assert(texts(p@)[i as int] == p@[i as int]@);
                    assert(texts(p@).len() == p@.len());
                }
                self.row_line(r, p[i].as_str())
            },
            None => self.row_line(r, ""),
        };
        let line = pad_truncate(text.as_str(), w);
        if i == self.sel_idx {
            selected_style().render(line.as_str())
        } else {
            self.colorize_row(line.as_str(), r)
        }
    }

    fn column(&self, by: ProcSort) -> (r: String)
        ensures
            r@ == self.model().column(by),
    {
        if self.sort_by == by {
            joined2(by.column_label(), direction_mark(self.asc))
        } else {
            by.column_label().to_owned()
        }
    }

    fn styled_header(&self, w: usize) -> (r: String)
        ensures
            r@ == self.model().styled_head(w as nat),
    {
        let header = pad_truncate(self.header_line().as_str(), w);
        let label = self.column(self.sort_by);
        set_off_label(header.as_str(), label.as_str(), header_style(), sort_chip_style())
    }

    fn header_line(&self) -> (r: String)
        ensures
            r@ == self.model().header(),
    {
        let mut s = left_pad("PID", 7);
        s.append(" ");
        s.append(right_pad("USER", 8).as_str());
        s.append(" ");
        s.append(left_pad(self.column(ProcSort::Cpu).as_str(), 6).as_str());
        s.append(" ");
        s.append(left_pad(self.column(ProcSort::Mem).as_str(), 6).as_str());
        s.append(" ");
        s.append(left_pad("RSS", 8).as_str());
        if self.show_gpu {
            s.append(" ");
            s.append(left_pad(self.column(ProcSort::Gpu).as_str(), 5).as_str());
            s.append(" ");
            s.append(left_pad("VRAM", 8).as_str());
        }
        s.append(" COMMAND");
        s
    }

    /// Tints the fixed columns of an already padded, plain row.
    fn colorize_row(&self, line: &str, r: &Process) -> (out: String)
        ensures
            out@ == colorized(line@, *r, self.show_gpu),
    {
        let c: Vec<char> = chars_of(line);
        let end: usize = if c.len() > 55 {
            c.len()
        } else {
            55
        };
        let mut s = tint_part(&c, 0, 7, GRAY);
        s.append(cut_part(&c, 7, 8).as_str());
        s.append(tint_part(&c, 8, 16, CYAN).as_str());
        s.append(cut_part(&c, 16, 17).as_str());
        s.append(tint_part(&c, 17, 23, load_color(r.cpu_percent)).as_str());
        s.append(cut_part(&c, 23, 24).as_str());
        s.append(tint_part(&c, 24, 30, load_color(r.mem_percent)).as_str());
        s.append(cut_part(&c, 30, 31).as_str());
        s.append(tint_part(&c, 31, 39, WHITE).as_str());
        s.append(cut_part(&c, 39, 40).as_str());
        if self.show_gpu {
            s.append(tint_part(&c, 40, 45, GPU_COLOR).as_str());
            s.append(cut_part(&c, 45, 46).as_str());
            s.append(tint_part(&c, 46, 54, GPU_MEM_COLOR).as_str());
            s.append(cut_part(&c, 54, 55).as_str());
            s.append(tint_part(&c, 55, end, GREEN).as_str());
        } else {
            s.append(tint_part(&c, 40, end, GREEN).as_str());
        }
        s
    }

    fn row_line(&self, r: &Process, prefix: &str) -> (out: String)
        ensures
            out@ == self.model().line(*r, prefix@),
    {
        let mut s = left_pad(signed_numeral_of(r.pid as i64).as_str(), 7);
        s.append(" ");
        s.append(pad_truncate(r.user.as_str(), 8).as_str());
        s.append(" ");
        s.append(left_pad(r.cpu_percent.to_fixed(1).as_str(), 6).as_str());
        s.append(" ");
        s.append(left_pad(r.mem_percent.to_fixed(1).as_str(), 6).as_str());
        s.append(" ");
        s.append(left_pad(format_bytes(r.rss).as_str(), 8).as_str());
        if self.show_gpu {
            // Per-process utilisation is only told of processes that are
            // actively computing.
            let util = if Num::zero().lt(r.gpu_percent) {
                r.gpu_percent.to_fixed(0)
            } else {
                "-".to_owned()
            };
            let mem = if r.gpu_mem > 0 {
                format_bytes(r.gpu_mem)
            } else {
                "-".to_owned()
            };
            s.append(" ");
            s.append(left_pad(util.as_str(), 5).as_str());
            s.append(" ");
            s.append(left_pad(mem.as_str(), 8).as_str());
        }
        s.append(" ");
        s.append(prefix);
        s.append(r.command.as_str());
        s
    }
}

proof fn lemma_place_of_pid(rows: Seq<Process>, pid: i32, i: int)
    requires
        0 <= i <= rows.len(),
    ensures
        match place_of_pid(rows, pid, i) {
            Some(k) => i <= k < rows.len() && rows[k].pid == pid,
            None => forall|k: int| i <= k < rows.len() ==> (#[trigger] rows[k]).pid != pid,
        },
    decreases rows.len() - i,
{
    if i < rows.len() && rows[i].pid != pid {
        lemma_place_of_pid(rows, pid, i + 1);
    }
}

/// A fresh snapshot leaves the selection on its process where that is still
/// listed, else in the same place, or on the last row where that is no longer
/// one. Nothing is selected exactly where no row is listed. The settings stay.
pub proof fn lemma_selection_pinned(t: ProcTableModel, all: Seq<Process>)
    requires
        t.wf(),
    ensures
        ({
            let u = t.with_rows(all);
            &&& u.wf()
            &&& u.selection() is None <==> u.rows.len() == 0
            &&& t.selection() matches Some(p) ==> if has_pid(u.rows, p.pid) {
                u.selection() is Some && u.selection()->0.pid == p.pid
            } else {
                u.rows.len() > 0 ==> u.sel_idx == if t.sel_idx < u.rows.len() {
                    t.sel_idx as int
                } else {
                    u.rows.len() - 1
                }
            }
            &&& (u.sort_by, u.asc, u.search, u.tree, u.mine_only, u.scroll) == (
                t.sort_by,
                t.asc,
                t.search,
                t.tree,
                t.mine_only,
                t.scroll,
            )
        }),
{
    reveal(ProcTableModel::with_rows);
    let f = t.listing(all);
    lemma_walked_even(f, 0, seq![], 0, Tree { rows: seq![], prefixes: seq![] }, f.len());
    lemma_place_of_pid(t.with_rows(all).rows, t.sel_pid, 0);
}

/// Whatever moves the selection or the view leaves a row selected, and its
/// process remembered.
pub proof fn lemma_selection_kept(t: ProcTableModel, delta: int, offset: int, w: nat, h: nat)
    requires
        t.wf(),
    ensures
        ProcTableModel::empty().wf(),
        t.moved(delta).wf(),
        t.at_first().wf(),
        t.selecting(offset).wf(),
        t.viewed(w, h).wf(),
        t.viewed(w, h).selection() == t.selection(),
{
    reveal(ProcTableModel::moved);
}

/// A row whose usages are numbers.
pub open spec fn measured() -> spec_fn(Process) -> bool {
    |r: Process| !r.cpu_percent.nan() && !r.gpu_percent.nan()
}

/// The rows are ordered by the sorted column: no row stands behind one that
/// it comes before.
pub proof fn lemma_rows_in_order(t: ProcTableModel, all: Seq<Process>)
    requires
        all_of(all, measured()),
    ensures
        in_order(t.listing(all), row_order(t.sort_by, t.asc)),
{
    let before = row_order(t.sort_by, t.asc);
    let pass = |r: Process| passes(r, lowered(t.search), t.mine_only, t.mine_user);
    let rows = all.filter(pass);
    lemma_filtered_kind(all, pass, measured());
    assert(strict_weak(measured(), before));
    lemma_arranged_in_order(rows, measured(), before);
}

/// Filtering and sorting lose no row that passes, and add none.
pub proof fn lemma_rows_complete(t: ProcTableModel, all: Seq<Process>, r: Process)
    ensures
        t.listing(all).contains(r) == (all.contains(r) && passes(r, lowered(t.search), t.mine_only, t.mine_user)),
        t.listing(all).to_multiset() == passing(all, lowered(t.search), t.mine_only, t.mine_user).to_multiset(),
{
    let pass = |r: Process| passes(r, lowered(t.search), t.mine_only, t.mine_user);
    let rows = all.filter(pass);
    let before = row_order(t.sort_by, t.asc);
    lemma_filtered(all, pass, r);
    lemma_arranged_keeps(rows, before, r);
    lemma_arranged_permutes(rows, before);
}

/// Moving the selection leaves it on a row, by at most that many.
pub proof fn lemma_move_in_range(t: ProcTableModel, delta: int)
    requires
        t.rows.len() > 0,
        t.sel_idx < t.rows.len(),
    ensures
        t.moved(delta).sel_idx < t.rows.len(),
        t.moved(delta).selection() == Some(t.rows[t.moved(delta).sel_idx as int]),
        t.moved(delta).sel_pid == t.moved(delta).selection().unwrap().pid,
        0 <= t.sel_idx + delta < t.rows.len() ==> t.moved(delta).sel_idx == t.sel_idx + delta,
{
    reveal(ProcTableModel::moved);
}

/// Puts a row behind those that it does not stand before.
fn place_row(rows: &mut Vec<Process>, x: Process, by: ProcSort, asc: bool)
    ensures
        final(rows)@ == old(rows)@.insert(slot(old(rows)@, x, row_order(by, asc)), x),
{
    let ghost before = rows@;
    let ghost order = row_order(by, asc);
    let mut at: usize = rows.len();
    proof {
        assert(before.take(at as int) =~= before);
    }
    while at > 0 && goes_before(by, asc, &x, &rows[at - 1])
        invariant
            at <= rows@.len(),
            rows@ == before,
            order == row_order(by, asc),
            slot(before, x, order) == slot(before.take(at as int), x, order),
        decreases at,
    {
        proof {
            assert(before.take(at as int).drop_last() =~= before.take(at - 1));
        }
        at = at - 1;
    }
    proof {
        if at > 0 {
            assert(before.take(at as int).last() == before[at - 1]);
        }
    }
    rows.insert(at, x);
}

/// The rows stand by the chosen column, highest first, or lowest first where the
/// order is turned round; by GPU, equal utilisations by GPU memory. Rows that
/// tie stand by process number, lowest first either way.
pub proof fn lemma_rows_ranked(t: ProcTableModel, all: Seq<Process>, i: int, j: int)
    requires
        all_of(all, measured()),
        0 <= i < j < t.listing(all).len(),
        t.listing(all)[i].cpu_percent.finite(),
        t.listing(all)[j].cpu_percent.finite(),
        t.listing(all)[i].gpu_percent.finite(),
        t.listing(all)[j].gpu_percent.finite(),
    ensures
        ({
            let high = if t.asc {
                t.listing(all)[j]
            } else {
                t.listing(all)[i]
            };
            let low = if t.asc {
                t.listing(all)[i]
            } else {
                t.listing(all)[j]
            };
            match t.sort_by {
                ProcSort::Cpu => high.cpu_percent.value() >= low.cpu_percent.value() && (high.cpu_percent.value()
                    == low.cpu_percent.value() ==> t.listing(all)[i].pid <= t.listing(all)[j].pid),
                ProcSort::Mem => high.rss >= low.rss && (high.rss == low.rss ==> t.listing(all)[i].pid <= t.listing(
                    all,
                )[j].pid),
                ProcSort::Gpu => high.gpu_percent.value() >= low.gpu_percent.value() && (high.gpu_percent.value()
                    == low.gpu_percent.value() ==> high.gpu_mem >= low.gpu_mem && (high.gpu_mem == low.gpu_mem
                    ==> t.listing(all)[i].pid <= t.listing(all)[j].pid)),
            }
        }),
{
    lemma_rows_in_order(t, all);
    let a = t.listing(all)[i];
    let b = t.listing(all)[j];
    assert(!row_order(t.sort_by, t.asc)(b, a));
    assert(!stands_before(t.sort_by, t.asc, b, a));
    lemma_order_value(a.cpu_percent, b.cpu_percent);
    lemma_order_value(b.cpu_percent, a.cpu_percent);
    lemma_order_value(a.gpu_percent, b.gpu_percent);
    lemma_order_value(b.gpu_percent, a.gpu_percent);
}

/// A process is listed where the search, without regard to case, occurs in its
/// command, its user's name or its number, and where only one user's are asked
/// for, where it is that user's. No other is.
pub proof fn lemma_rows_searched(t: ProcTableModel, all: Seq<Process>, r: Process)
    ensures
        t.listing(all).contains(r) == ({
            let q = lowered(t.search);
            &&& all.contains(r)
            &&& occurs(lowered(r.command@), q) || occurs(lowered(r.user@), q) || occurs(signed_numeral(r.pid as int), q)
            &&& t.mine_only ==> r.user@ == t.mine_user
        }),
{
    let q = lowered(t.search);
    lemma_rows_complete(t, all, r);
    lemma_found(lowered(r.command@), q);
    lemma_found(lowered(r.user@), q);
    lemma_found(signed_numeral(r.pid as int), q);
    if q.len() == 0 {
        assert(lowered(r.command@).subrange(0, 0 + q.len() as int) =~= q);
    }
}

} // verus!
