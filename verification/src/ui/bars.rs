//! Prompts, help bars and the lines above the full-screen views.

use super::app::App;
use super::charts::{rate_label, rate_note};
use super::gauge::{fill, filled_cells};
use super::panels::{
    help, help_key, help_label, helping, key_cap, key_label, kill_bar, on_off, on_off_text, warning,
};
use super::screen::{clipped, truncate_width};
use crate::chars::{
    chars_of, group_texts, join, joined, joined2, joined3, numeral, numeral_of, repeated, signed_numeral,
    signed_numeral_of, texts,
};
use crate::config::{quote, quoted};
use crate::metrics::disk::Mount;
use crate::style::{dim, dimmed, visible, width, Style, DISK_COLOR, WHITE, YELLOW};
use crate::text::{
    bytes_text, clamp_percent, fitted, format_bytes, left_aligned, left_pad, pad_line, pad_truncate, padded,
    percent_bounded, repeat, right_aligned, right_pad, spaces, tiled, BAR_EMPTY, BAR_FILLED,
};
use vstd::prelude::*;
use vstd::string::StringExecFns;

verus! {

/// A key and what it does.
pub open spec fn chip_text(key: Seq<char>, label: Seq<char>) -> Seq<char> {
    key_cap(key) + key_label(" "@ + label + " "@)
}

fn chip(key: &str, label: &str) -> (r: String)
    ensures
        r@ == chip_text(key@, label@),
{
    joined2(help_key(key).as_str(), help_label(joined3(" ", label, " ").as_str()).as_str())
}

/// The kill prompt.
pub open spec fn kill_text(pid: i32, name: Seq<char>, w: nat) -> Seq<char> {
    warning(
        fitted(
            "Kill PID "@ + signed_numeral(pid as int) + " ("@ + clipped(name, 30)
                + ")?   t = SIGTERM   k = SIGKILL   Esc = cancel"@,
            w,
        ),
    )
}

fn kill_prompt(pid: i32, name: &str, w: usize) -> (r: String)
    ensures
        r@ == kill_text(pid, name@, w as nat),
{
    let mut s = "Kill PID ".to_owned();
    s.append(signed_numeral_of(pid as i64).as_str());
    s.append(" (");
    s.append(truncate_width(name, 30).as_str());
    s.append(")?   t = SIGTERM   k = SIGKILL   Esc = cancel");
    kill_bar(pad_truncate(s.as_str(), w).as_str())
}

/// The search prompt.
pub open spec fn search_text(query: Seq<char>, w: nat) -> Seq<char> {
    key_label(fitted("search: "@ + query + "█   Enter = keep filter   Esc = clear"@, w))
}

fn search_prompt(query: &str, w: usize) -> (r: String)
    ensures
        r@ == search_text(query@, w as nat),
{
    let s = joined3("search: ", query, "█   Enter = keep filter   Esc = clear");
    help_label(pad_truncate(s.as_str(), w).as_str())
}

/// The mark of a paused dashboard.
pub open spec fn pause_mark(paused: bool) -> Seq<char> {
    if paused {
        warning(" PAUSED "@) + " "@
    } else {
        ""@
    }
}

fn paused_prefix(paused: bool) -> (r: String)
    ensures
        r@ == pause_mark(paused),
{
    if paused {
        joined2(kill_bar(" PAUSED ").as_str(), " ")
    } else {
        "".to_owned()
    }
}

/// A help bar of chips.
pub open spec fn chip_line(paused: bool, chips: Seq<Seq<char>>) -> Seq<char> {
    pause_mark(paused) + joined(chips, " "@)
}

fn chip_bar(paused: bool, chips: &Vec<String>) -> (r: String)
    ensures
        r@ == chip_line(paused, texts(chips@)),
{
    joined2(paused_prefix(paused).as_str(), join(chips, " ").as_str())
}

/// The chips of a full-screen view.
pub open spec fn view_chips(sort: Seq<char>, back: Seq<char>) -> Seq<Seq<char>> {
    seq![
        chip_text("↑↓"@, "select"@),
        chip_text(sort, "sort"@),
        chip_text("/"@, "search"@),
        chip_text("x"@, "kill"@),
        chip_text("spc"@, "pause"@),
        chip_text(back, "back"@),
        chip_text("q"@, "quit"@),
    ]
}

fn chips_of_view(sort: &str, back: &str) -> (r: Vec<String>)
    ensures
        texts(r@) == view_chips(sort@, back@),
{
    broadcast use group_texts;

    let mut v: Vec<String> = Vec::new();
    v.push(chip("↑↓", "select"));
    v.push(chip(sort, "sort"));
    v.push(chip("/", "search"));
    v.push(chip("x", "kill"));
    v.push(chip("spc", "pause"));
    v.push(chip(back, "back"));
    v.push(chip("q", "quit"));
    proof {
        assert(texts(v@) =~= view_chips(sort@, back@));
    }
    v
}

/// The line at the bottom of a full-screen view: a prompt, or what the keys
/// do.
pub open spec fn view_help_text(
    kill: (i32, Seq<char>),
    searching: bool,
    query: Seq<char>,
    paused: bool,
    chips: Seq<Seq<char>>,
    w: nat,
) -> Seq<char> {
    if kill.0 != 0 {
        kill_text(kill.0, kill.1, w)
    } else if searching {
        search_text(query, w)
    } else {
        chip_line(paused, chips)
    }
}

/// A mounted filesystem with its usage bar.
pub open spec fn mount_line(m: Mount, path_w: nat) -> Seq<char> {
    let c = Style::ink(DISK_COLOR);
    let filled = filled_cells(percent_bounded(m.used_percent), 20);
    helping(fitted(m.path@, path_w)) + "  "@ + c.rendered("["@) + c.rendered(tiled(BAR_FILLED@, filled)) + dimmed(
        tiled(BAR_EMPTY@, (20 - filled) as nat),
    ) + c.rendered("]"@) + c.rendered(right_aligned(m.used_percent.fixed(1), 6) + "%"@) + dimmed(
        "  "@ + right_aligned(bytes_text(m.used as nat), 8) + " / "@ + left_aligned(bytes_text(m.total as nat), 8),
    )
}

fn mount_row(m: &Mount, path_w: usize) -> (r: String)
    ensures
        r@ == mount_line(*m, path_w as nat),
{
    let c = Style::new().fg(DISK_COLOR);
    let filled: usize = fill(clamp_percent(m.used_percent), 20);
    let mut s = help(pad_truncate(m.path.as_str(), path_w).as_str());
    s.append("  ");
    s.append(c.render("[").as_str());
    s.append(c.render(repeat(BAR_FILLED, filled).as_str()).as_str());
    s.append(dim(repeat(BAR_EMPTY, 20 - filled).as_str()).as_str());
    s.append(c.render("]").as_str());
    let pct = joined2(left_pad(m.used_percent.to_fixed(1).as_str(), 6).as_str(), "%");
    s.append(c.render(pct.as_str()).as_str());
    let mut t = "  ".to_owned();
    t.append(left_pad(format_bytes(m.used).as_str(), 8).as_str());
    t.append(" / ");
    t.append(right_pad(format_bytes(m.total).as_str(), 8).as_str());
    s.append(dim(t.as_str()).as_str());
    s
}

/// How many filesystems are shown at most.
pub const MAX_MOUNTS: usize = 6;

/// The length of the longest path, at most `cap`.
pub open spec fn path_cells(m: Seq<Mount>, cap: nat) -> nat
    decreases m.len(),
{
    if m.len() == 0 {
        0
    } else {
        let before = path_cells(m.drop_last(), cap);
        let n = if m.last().path@.len() > cap {
            cap
        } else {
            m.last().path@.len()
        };
        if n > before {
            n
        } else {
            before
        }
    }
}

fn path_width(m: &Vec<Mount>, n: usize, cap: usize) -> (r: usize)
    requires
        n <= m@.len(),
    ensures
        r == path_cells(m@.take(n as int), cap as nat),
{
    let mut out: usize = 0;
    let mut i: usize = 0;
    proof {
        assert(m@.take(0).len() == 0);
    }
    while i < n
        invariant
            i <= n,
            n <= m@.len(),
            out == path_cells(m@.take(i as int), cap as nat),
        decreases n - i,
    {
        proof {
            assert(m@.take(i + 1).drop_last() =~= m@.take(i as int));
            assert(m@.take(i + 1).last() == m@[i as int]);
        }
        let c: Vec<char> = chars_of(m[i].path.as_str());
        let k: usize = if c.len() > cap {
            cap
        } else {
            c.len()
        };
        if k > out {
            out = k;
        }
        i = i + 1;
    }
    out
}

/// The lines of the first `n` filesystems, a blank line between them.
pub open spec fn mount_lines(m: Seq<Mount>, n: nat, path_w: nat) -> Seq<Seq<char>>
    decreases n,
{
    if n == 0 {
        seq![]
    } else {
        let before = mount_lines(m, (n - 1) as nat, path_w);
        (if n == 1 {
            before
        } else {
            before.push(""@)
        }).push(mount_line(m[n - 1], path_w))
    }
}

/// The filesystems with their usage bars; what does not fit is counted.
pub open spec fn mount_panel(m: Seq<Mount>) -> Seq<Seq<char>> {
    if m.len() == 0 {
        seq![dimmed("no filesystems found"@)]
    } else {
        let n = if m.len() > MAX_MOUNTS {
            MAX_MOUNTS as nat
        } else {
            m.len()
        };
        let shown = mount_lines(m, n, path_cells(m.take(n as int), 24));
        if m.len() > MAX_MOUNTS {
            shown.push(dimmed("… "@ + numeral((m.len() - MAX_MOUNTS) as nat) + " more filesystems"@))
        } else {
            shown
        }
    }
}

pub(crate) fn disk_gauges(m: &Vec<Mount>) -> (r: Vec<String>)
    ensures
        texts(r@) == mount_panel(m@),
{
    broadcast use group_texts;

    let mut lines: Vec<String> = Vec::new();
    if m.len() == 0 {
        lines.push(dim("no filesystems found"));
        proof {
            assert(texts(lines@) =~= mount_panel(m@));
        }
        return lines;
    }
    let n: usize = if m.len() > MAX_MOUNTS {
        MAX_MOUNTS
    } else {
        m.len()
    };
    let path_w: usize = path_width(m, n, 24);
    let mut i: usize = 0;
    proof {
        assert(texts(lines@) =~= mount_lines(m@, 0, path_w as nat));
    }
    while i < n
        invariant
            i <= n,
            n <= m@.len(),
            texts(lines@) == mount_lines(m@, i as nat, path_w as nat),
        decreases n - i,
    {
        broadcast use group_texts;

        if i > 0 {
            lines.push("".to_owned());
        }
        lines.push(mount_row(&m[i], path_w));
        i = i + 1;
    }
    if m.len() > MAX_MOUNTS {
        let more = joined3("… ", numeral_of((m.len() - MAX_MOUNTS) as u64).as_str(), " more filesystems");
        lines.push(dim(more.as_str()));
    }
    lines
}

/// The head of a full-screen view: its name, how much it lists, the order and
/// the search.
pub open spec fn view_head(
    name: Seq<char>,
    count: nat,
    what: Seq<char>,
    sort: Seq<char>,
    search: Seq<char>,
    note: Seq<char>,
) -> Seq<char> {
    let a = "   "@ + numeral(count) + what + sort;
    let b = if search.len() > 0 {
        a + "   search: "@ + quoted(search)
    } else {
        a
    };
    Style::ink(WHITE).strong().rendered(name) + dimmed(b + note)
}

fn view_heading(name: &str, count: usize, what: &str, sort: &str, search: &str, note: &str) -> (r: String)
    ensures
        r@ == view_head(name@, count as nat, what@, sort@, search@, note@),
{
    let mut info = "   ".to_owned();
    info.append(numeral_of(count as u64).as_str());
    info.append(what);
    info.append(sort);
    if !search.is_empty() {
        info.append("   search: ");
        info.append(quote(search).as_str());
    }
    info.append(note);
    joined2(Style::new().fg(WHITE).bold().render(name).as_str(), dim(info.as_str()).as_str())
}

/// A help line between its prefix and suffix, `gap` spaces between the chips.
pub open spec fn spread(prefix: Seq<char>, chips: Seq<Seq<char>>, suffix: Seq<char>, gap: nat) -> Seq<char> {
    prefix + joined(chips, repeated(' ', gap)) + suffix
}

fn spread_line(prefix: &str, chips: &Vec<String>, suffix: &str, gap: usize) -> (r: String)
    ensures
        r@ == spread(prefix@, texts(chips@), suffix@, gap as nat),
{
    let gaps = spaces(gap);
    joined3(prefix, join(chips, gaps.as_str()).as_str(), suffix)
}

/// A line with a readout against its right edge, where both fit with two
/// spaces between them.
pub open spec fn with_readout(l: Seq<char>, readout: Seq<char>, w: nat) -> Option<Seq<char>> {
    let pad = w - visible(l) - visible(readout);
    if pad >= 2 {
        Some(l + repeated(' ', pad as nat) + readout)
    } else {
        None
    }
}

fn beside_readout(l: &str, readout: &str, w: usize) -> (r: Option<String>)
    ensures
        match r {
            Some(s) => with_readout(l@, readout@, w as nat) == Some(s@),
            None => with_readout(l@, readout@, w as nat) is None,
        },
{
    let pad: i128 = w as i128 - width(l) as i128 - width(readout) as i128;
    if pad >= 2 {
        Some(joined3(l, spaces(pad as usize).as_str(), readout))
    } else {
        None
    }
}

/// The widest of three spacings that fits: first beside the readout, then
/// alone; the tightest where none does.
pub open spec fn best_help(
    two: Seq<char>,
    one: Seq<char>,
    none: Seq<char>,
    readout: Option<Seq<char>>,
    w: nat,
) -> Seq<char> {
    let beside = match readout {
        Some(r) => match with_readout(two, r, w) {
            Some(s) => Some(s),
            None => match with_readout(one, r, w) {
                Some(s) => Some(s),
                None => with_readout(none, r, w),
            },
        },
        None => None,
    };
    match beside {
        Some(s) => s,
        None => if visible(two) <= w {
            padded(two, w)
        } else if visible(one) <= w {
            padded(one, w)
        } else {
            padded(none, w)
        },
    }
}

fn choose_help(two: &str, one: &str, none: &str, readout: Option<String>, w: usize) -> (r: String)
    ensures
        r@ == best_help(
            two@,
            one@,
            none@,
            match readout {
                Some(x) => Some(x@),
                None => None,
            },
            w as nat,
        ),
{
    if let Some(x) = readout {
        if let Some(s) = beside_readout(two, x.as_str(), w) {
            return s;
        }
        if let Some(s) = beside_readout(one, x.as_str(), w) {
            return s;
        }
        if let Some(s) = beside_readout(none, x.as_str(), w) {
            return s;
        }
    }
    if width(two) <= w {
        pad_line(two, w)
    } else if width(one) <= w {
        pad_line(one, w)
    } else {
        pad_line(none, w)
    }
}

impl App {
    /// The chips of the main screen's help bar.
    pub open spec fn main_chips(self) -> Seq<Seq<char>> {
        let c = self.controls;
        let a = seq![
            chip_text("q"@, "quit"@),
            chip_text("c"@, "cores "@ + on_off_text(c.show_cores)),
            chip_text("h"@, "hist "@ + on_off_text(c.show_history)),
        ];
        let b = if self.cfg.disk {
            a.push(chip_text("d"@, "disks "@ + on_off_text(c.show_disks)))
        } else {
            a
        };
        let d = if self.cfg.system {
            b.push(chip_text("n"@, "net "@ + on_off_text(c.show_net)))
        } else {
            b
        };
        d.push(chip_text("t"@, "tree"@)).push(chip_text("u"@, "mine"@)).push(
            chip_text(
                if c.table.show_gpu {
                    "p/m/g"@
                } else {
                    "p/m"@
                },
                "sort"@,
            ),
        ).push(chip_text("/"@, "search"@)).push(chip_text("x"@, "kill"@)).push(chip_text("spc"@, "pause"@)).push(
            chip_text("-/+"@, signed_numeral(c.interval_ms as int) + "ms"@),
        )
    }

    fn chips(&self) -> (r: Vec<String>)
        ensures
            texts(r@) == self.main_chips(),
    {
        broadcast use group_texts;

        let c = &self.controls;
        let mut v: Vec<String> = Vec::new();
        v.push(chip("q", "quit"));
        v.push(chip("c", joined2("cores ", on_off(c.show_cores)).as_str()));
        v.push(chip("h", joined2("hist ", on_off(c.show_history)).as_str()));
        proof {
            assert(texts(v@) =~= seq![
                chip_text("q"@, "quit"@),
                chip_text("c"@, "cores "@ + on_off_text(c.show_cores)),
                chip_text("h"@, "hist "@ + on_off_text(c.show_history)),
            ]);
        }
        if self.cfg.disk {
            v.push(chip("d", joined2("disks ", on_off(c.show_disks)).as_str()));
        }
        if self.cfg.system {
            v.push(chip("n", joined2("net ", on_off(c.show_net)).as_str()));
        }
        v.push(chip("t", "tree"));
        v.push(chip("u", "mine"));
        let sort_key = if c.table.show_gpu {
            "p/m/g"
        } else {
            "p/m"
        };
        v.push(chip(sort_key, "sort"));
        v.push(chip("/", "search"));
        v.push(chip("x", "kill"));
        v.push(chip("spc", "pause"));
        v.push(chip("-/+", joined2(signed_numeral_of(c.interval_ms).as_str(), "ms").as_str()));
        v
    }

    /// The status behind the help bar.
    pub open spec fn status_note(self) -> Seq<char> {
        if self.controls.status@.len() > 0 {
            "  "@ + Style::ink(YELLOW).rendered(self.controls.status@)
        } else {
            ""@
        }
    }

    /// The disks' throughput at the edge of the help bar.
    pub open spec fn throughput_note(self) -> Option<Seq<char>> {
        if self.cfg.system {
            Some(helping(rate_note("R "@, self.disk.read_per_sec) + " "@ + rate_note("W "@, self.disk.write_per_sec)))
        } else {
            None
        }
    }

    /// The line at the bottom of the main screen.
    pub open spec fn help_text(self, w: nat) -> Seq<char> {
        let c = self.controls;
        if c.kill_pid != 0 {
            kill_text(c.kill_pid, c.kill_name@, w)
        } else if c.searching {
            search_text(c.table.search@, w)
        } else {
            let p = pause_mark(c.paused);
            let s = self.status_note();
            best_help(
                spread(p, self.main_chips(), s, 2),
                spread(p, self.main_chips(), s, 1),
                spread(p, self.main_chips(), s, 0),
                self.throughput_note(),
                w,
            )
        }
    }

    pub(crate) fn view_help(&self, w: usize) -> (r: String)
        ensures
            r@ == self.help_text(w as nat),
    {
        let c = &self.controls;
        if c.kill_pid != 0 {
            return kill_prompt(c.kill_pid, c.kill_name.as_str(), w);
        }
        if c.searching {
            return search_prompt(c.table.search.as_str(), w);
        }
        let chips = self.chips();
        let prefix = paused_prefix(c.paused);
        let suffix = if !c.status.as_str().is_empty() {
            joined2("  ", Style::new().fg(YELLOW).render(c.status.as_str()).as_str())
        } else {
            "".to_owned()
        };
        let readout = if self.cfg.system {
            let rates = joined3(
                rate_label("R ", self.disk.read_per_sec).as_str(),
                " ",
                rate_label("W ", self.disk.write_per_sec).as_str(),
            );
            Some(help(rates.as_str()))
        } else {
            None
        };
        let two = spread_line(prefix.as_str(), &chips, suffix.as_str(), 2);
        let one = spread_line(prefix.as_str(), &chips, suffix.as_str(), 1);
        let none = spread_line(prefix.as_str(), &chips, suffix.as_str(), 0);
        choose_help(two.as_str(), one.as_str(), none.as_str(), readout, w)
    }

    /// The line at the bottom of the disk view.
    pub open spec fn disk_help(self, w: nat) -> Seq<char> {
        let c = self.controls;
        view_help_text(
            (c.kill_pid, c.kill_name@),
            c.searching,
            c.disktable.search@,
            c.paused,
            view_chips("r/w/t"@, "d/esc"@),
            w,
        )
    }

    pub(crate) fn view_disk_help(&self, w: usize) -> (r: String)
        ensures
            r@ == self.disk_help(w as nat),
    {
        let c = &self.controls;
        if c.kill_pid != 0 {
            return kill_prompt(c.kill_pid, c.kill_name.as_str(), w);
        }
        if c.searching {
            return search_prompt(c.disktable.search.as_str(), w);
        }
        chip_bar(c.paused, &chips_of_view("r/w/t", "d/esc"))
    }

    /// The line at the bottom of the network view.
    pub open spec fn net_help(self, w: nat) -> Seq<char> {
        let c = self.controls;
        view_help_text(
            (c.kill_pid, c.kill_name@),
            c.searching,
            c.nettable.search@,
            c.paused,
            view_chips("d/u/t"@, "n/esc"@),
            w,
        )
    }

    pub(crate) fn view_net_help(&self, w: usize) -> (r: String)
        ensures
            r@ == self.net_help(w as nat),
    {
        let c = &self.controls;
        if c.kill_pid != 0 {
            return kill_prompt(c.kill_pid, c.kill_name.as_str(), w);
        }
        if c.searching {
            return search_prompt(c.nettable.search.as_str(), w);
        }
        chip_bar(c.paused, &chips_of_view("d/u/t", "n/esc"))
    }

    /// The head of the disk view.
    pub open spec fn disk_head(self) -> Seq<char> {
        let t = self.controls.disktable;
        view_head(
            "DISK"@,
            t.rows@.len(),
            " procs   sort: "@,
            t.sort_by.name(),
            t.search@,
            if self.procdisk.restricted {
                "   · sudo for all procs"@
            } else {
                ""@
            },
        )
    }

    pub(crate) fn disk_info_line(&self) -> (r: String)
        ensures
            r@ == self.disk_head(),
    {
        let t = &self.controls.disktable;
        let note = if self.procdisk.restricted {
            "   · sudo for all procs"
        } else {
            ""
        };
        view_heading("DISK", t.count(), " procs   sort: ", t.sort_by.as_str(), t.search.as_str(), note)
    }

    /// The head of the network view.
    pub open spec fn net_head(self) -> Seq<char> {
        let t = self.controls.nettable;
        view_head("NETWORK"@, t.rows@.len(), " conns   sort: "@, t.sort_by.name(), t.search@, ""@)
    }

    pub(crate) fn net_info_line(&self) -> (r: String)
        ensures
            r@ == self.net_head(),
    {
        let t = &self.controls.nettable;
        view_heading("NETWORK", t.count(), " conns   sort: ", t.sort_by.as_str(), t.search.as_str(), "")
    }

    /// The machine's addresses, as far as they are known.
    pub open spec fn addresses(self) -> Seq<char> {
        let a = if self.sys.local_ip@.len() > 0 {
            dimmed("lan "@) + helping(self.sys.local_ip@)
        } else {
            ""@
        };
        if self.sys.ext_ip@.len() > 0 {
            (if a.len() > 0 {
                a + "   "@
            } else {
                a
            }) + dimmed("wan "@) + helping(self.sys.ext_ip@)
        } else {
            a
        }
    }

    pub(crate) fn net_addr_line(&self) -> (r: String)
        ensures
            r@ == self.addresses(),
    {
        let mut ips = if !self.sys.local_ip.as_str().is_empty() {
            joined2(dim("lan ").as_str(), help(self.sys.local_ip.as_str()).as_str())
        } else {
            "".to_owned()
        };
        let ext = self.sys.external_ip();
        if !ext.as_str().is_empty() {
            if !ips.as_str().is_empty() {
                ips.append("   ");
            }
            ips.append(dim("wan ").as_str());
            ips.append(help(ext.as_str()).as_str());
        }
        ips
    }
}

/// The filesystems are listed in turn, a blank line between them, six of them at
/// most, and what is left over is counted.
pub proof fn lemma_mounts_shown(m: Seq<Mount>, i: int)
    requires
        0 <= i < m.len(),
        i < 6,
    ensures
        exists|path_w: nat| #[trigger] mount_line(m[i], path_w) == mount_panel(m)[2 * i],
        m.len() <= 6 ==> mount_panel(m).len() == 2 * m.len() - 1,
        m.len() > 6 ==> mount_panel(m).len() == 12 && mount_panel(m).last() == dimmed(
            "… "@ + numeral((m.len() - 6) as nat) + " more filesystems"@,
        ),
{
    let n = if m.len() > MAX_MOUNTS {
        MAX_MOUNTS as nat
    } else {
        m.len()
    };
    let w = path_cells(m.take(n as int), 24);
    lemma_mount_lines(m, n, w, i);
    assert(mount_panel(m)[2 * i] == mount_line(m[i], w));
}

proof fn lemma_mount_lines(m: Seq<Mount>, n: nat, w: nat, i: int)
    requires
        0 <= i < n <= m.len(),
    ensures
        mount_lines(m, n, w).len() == 2 * n - 1,
        mount_lines(m, n, w)[2 * i] == mount_line(m[i], w),
    decreases n,
{
    if n > 1 {
        if i < n - 1 {
            lemma_mount_lines(m, (n - 1) as nat, w, i);
        } else {
            lemma_mount_lines(m, (n - 1) as nat, w, 0);
        }
    } else {
        assert(mount_lines(m, 0, w).len() == 0);
    }
}

} // verus!
