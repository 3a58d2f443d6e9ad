//! The charts: utilisation history beside per-core bars, and the throughput of
//! the disks and the network.

use super::app::App;
use super::braille::{chart, render_lanes, samples};
use super::corebars::{bar_line, core_bars_spaced_height, layout, render_core_bars, spaced_height};
use super::disktable::{disk_read_style, disk_write_style};
use super::history::{lemma_tail, lemma_top, lemma_top_is_a_sample, max_tail, tail, top};
use super::panels::{title, titled};
use super::screen::{beside, clipped, join_horizontal_top, truncate_width};
use crate::chars::{group_texts, join, joined, joined3, texts};
use crate::num::value::{lemma_of_value, lemma_order_value, lemma_value_units};
use crate::num::Num;
use crate::style::{
    dim, dimmed, Style, BLUE, CPU_COLOR, CYAN, GPU_COLOR, MEM_COLOR, PURPLE, RED,
};
use crate::text::{bytes_text, format_bytes, pad_line, padded, LAYOUT_GAP};
use vstd::prelude::*;
use vstd::string::StringExecFns;

verus! {

/// Appends lines to lines.
pub(crate) fn extend(rows: &mut Vec<String>, more: Vec<String>)
    ensures
        texts(final(rows)@) == texts(old(rows)@) + texts(more@),
        final(rows)@.len() == old(rows)@.len() + more@.len(),
{
    let mut m = more;
    rows.append(&mut m);
    proof {
        assert(texts(rows@) =~= texts(old(rows)@) + texts(more@));
    }
}

/// The widths of the history and of the per-core bars in `w` cells.
pub open spec fn split_width(history: bool, cores: bool, w: nat) -> (nat, nat) {
    let plot = if history {
        if cores {
            w * 62 / 100
        } else {
            w
        }
    } else {
        0
    };
    let bars = if cores {
        w - plot - (if plot > 0 {
            LAYOUT_GAP as int
        } else {
            0
        })
    } else {
        0
    };
    (plot, bars as nat)
}

fn chart_split(history: bool, cores: bool, w: usize) -> (r: (usize, usize))
    requires
        w >= 20,
    ensures
        r.0 == split_width(history, cores, w as nat).0,
        r.1 == split_width(history, cores, w as nat).1,
        r.0 + r.1 <= w,
{
    let plot: usize = if history {
        if cores {
            (w as u128 * 62 / 100) as usize
        } else {
            w
        }
    } else {
        0
    };
    let bars: usize = if cores {
        if plot > 0 {
            w - plot - LAYOUT_GAP
        } else {
            w
        }
    } else {
        0
    };
    (plot, bars)
}

/// A titled percentage.
pub open spec fn percent_note(name: Seq<char>, p: Num, color: u8) -> Seq<char> {
    Style::ink(color).rendered(name + p.fixed(0) + "%"@)
}

fn percent_label(name: &str, p: Num, color: u8) -> (r: String)
    ensures
        r@ == percent_note(name@, p, color),
{
    let s = joined3(name, p.to_fixed(0).as_str(), "%");
    Style::new().fg(color).render(s.as_str())
}

/// The bars of all cores.
pub open spec fn bar_lines(data: Seq<Num>, max: Num, w: nat, h: nat) -> Seq<Seq<char>> {
    if data.len() == 0 || h < 1 || w < 1 {
        seq![]
    } else {
        Seq::new(h, |k: int| bar_line(data, max, layout(data.len(), w, h), k))
    }
}

/// A scale for values up to `top`, at least one.
pub open spec fn scale_for(top: Num) -> Num {
    if Num::spec_zero().at_least(top) {
        Num::of(1)
    } else {
        top
    }
}

/// The larger of two scales.
pub open spec fn larger(a: Num, b: Num) -> Num {
    if a.less(b) {
        b
    } else {
        a
    }
}

fn scale_of(a: Num, b: Num) -> (r: Num)
    requires
        !a.nan(),
        !b.nan(),
    ensures
        r == scale_for(larger(a, b)),
        r.at_least(Num::spec_zero()),
{
    let mut scale = a;
    if scale.lt(b) {
        scale = b;
    }
    if Num::zero().ge(scale) {
        scale = Num::from_u64(1);
    }
    proof {
        crate::num::arith::lemma_of_range(1);
    }
    scale
}

/// A rate with its mark.
pub open spec fn rate_note(mark: Seq<char>, rate: Num) -> Seq<char> {
    mark + bytes_text(rate.truncated(u64::MAX as nat)) + "/s"@
}

pub(crate) fn rate_label(mark: &str, rate: Num) -> (r: String)
    ensures
        r@ == rate_note(mark@, rate),
{
    joined3(mark, format_bytes(rate.to_u64()).as_str(), "/s")
}

/// The head of a throughput chart.
pub open spec fn throughput_head(
    name: Seq<char>,
    marks: (Seq<char>, Seq<char>),
    inks: (Style, Style),
    rates: (Num, Num),
    scale: Num,
) -> Seq<char> {
    titled(name) + "   "@ + inks.0.rendered(rate_note(marks.0, rates.0)) + "  "@ + inks.1.rendered(
        rate_note(marks.1, rates.1),
    ) + dimmed(rate_note("   peak "@, scale))
}

fn throughput_header(name: &str, marks: (&str, &str), inks: (Style, Style), rates: (Num, Num), scale: Num) -> (r: String)
    ensures
        r@ == throughput_head(name@, (marks.0@, marks.1@), inks, rates, scale),
{
    let mut s = title(name);
    s.append("   ");
    s.append(inks.0.render(rate_label(marks.0, rates.0).as_str()).as_str());
    s.append("  ");
    s.append(inks.1.render(rate_label(marks.1, rates.1).as_str()).as_str());
    s.append(dim(rate_label("   peak ", scale).as_str()).as_str());
    s
}

/// A head above a chart of two series.
pub open spec fn headed_chart(
    head: Seq<char>,
    a: Seq<Num>,
    b: Seq<Num>,
    colors: Seq<u8>,
    names: Seq<&str>,
    scale: Num,
    w: nat,
    h: nat,
) -> Seq<Seq<char>> {
    seq![padded(clipped(head, w), w)] + chart(seq![a, b], colors, names, scale, w, h)
}

fn two_lanes(
    head: &str,
    a: &Vec<Num>,
    b: &Vec<Num>,
    colors: &Vec<u8>,
    names: &Vec<&str>,
    scale: Num,
    w: usize,
    h: usize,
) -> (r: Vec<String>)
    requires
        scale.at_least(Num::spec_zero()),
        colors@.len() >= 2,
        2 * w <= usize::MAX,
        4 * h <= usize::MAX,
    ensures
        texts(r@) == headed_chart(head@, a@, b@, colors@, names@, scale, w as nat, h as nat),
{
    broadcast use group_texts;

    let mut series: Vec<&Vec<Num>> = Vec::new();
    series.push(a);
    series.push(b);
    proof {
        assert(samples(series@) =~= seq![a@, b@]);
    }
    let mut out: Vec<String> = Vec::new();
    out.push(pad_line(truncate_width(head, w).as_str(), w));
    proof {
        assert(texts(out@) =~= seq![padded(clipped(head@, w as nat), w as nat)]);
    }
    let lanes = render_lanes(&series, colors, names, scale, w, h);
    extend(&mut out, lanes);
    out
}

impl App {
    /// The head of the history chart.
    pub open spec fn history_head(self) -> Seq<char> {
        let a = titled("HISTORY"@) + "   "@ + percent_note("cpu "@, self.cpu.overall().total, CPU_COLOR) + "  "@
            + percent_note("mem "@, self.mem.ram.used_percent, MEM_COLOR);
        (match self.gpu_figures() {
            Some(s) => a + "  "@ + percent_note("gpu "@, s.gpu_util, GPU_COLOR),
            None => a,
        }) + dimmed("  0-100%"@)
    }

    /// The lanes of the history chart.
    pub open spec fn history_lanes(self, w: nat, h: nat) -> Seq<Seq<char>> {
        if self.gpu_figures() is Some {
            chart(
                seq![self.cpu_hist@, self.mem_hist@, self.gpu_hist@],
                seq![CPU_COLOR, MEM_COLOR, GPU_COLOR],
                seq!["cpu", "mem", "gpu"],
                Num::of(100),
                w,
                h,
            )
        } else {
            chart(
                seq![self.cpu_hist@, self.mem_hist@],
                seq![CPU_COLOR, MEM_COLOR],
                seq!["cpu", "mem"],
                Num::of(100),
                w,
                h,
            )
        }
    }

    /// The history chart with its head.
    pub open spec fn history_plot(self, w: nat, h: nat) -> Seq<char> {
        joined(
            seq![padded(clipped(self.history_head(), w), w)] + self.history_lanes(w, (h - 1) as nat),
            "\n"@,
        )
    }

    fn history_header(&self) -> (r: String)
        ensures
            r@ == self.history_head(),
    {
        let mut s = title("HISTORY");
        s.append("   ");
        s.append(percent_label("cpu ", self.cpu.aggregate().total, CPU_COLOR).as_str());
        s.append("  ");
        s.append(percent_label("mem ", self.mem.ram.used_percent, MEM_COLOR).as_str());
        if let Some(g) = self.gpu_summary() {
            s.append("  ");
            s.append(percent_label("gpu ", g.gpu_util, GPU_COLOR).as_str());
        }
        s.append(dim("  0-100%").as_str());
        s
    }

    fn render_history(&self, w: usize, h: usize) -> (r: Vec<String>)
        requires
            2 * w <= usize::MAX,
            4 * h <= usize::MAX,
        ensures
            texts(r@) == self.history_lanes(w as nat, h as nat),
    {
        let mut series: Vec<&Vec<Num>> = Vec::new();
        let mut colors: Vec<u8> = Vec::new();
        let mut names: Vec<&str> = Vec::new();
        series.push(&self.cpu_hist);
        colors.push(CPU_COLOR);
        names.push("cpu");
        series.push(&self.mem_hist);
        colors.push(MEM_COLOR);
        names.push("mem");
        if self.gpu_summary().is_some() {
            series.push(&self.gpu_hist);
            colors.push(GPU_COLOR);
            names.push("gpu");
            proof {
                assert(samples(series@) =~= seq![self.cpu_hist@, self.mem_hist@, self.gpu_hist@]);
                assert(colors@ =~= seq![CPU_COLOR, MEM_COLOR, GPU_COLOR]);
                assert(names@ =~= seq!["cpu", "mem", "gpu"]);
            }
        } else {
            proof {
                assert(samples(series@) =~= seq![self.cpu_hist@, self.mem_hist@]);
                assert(colors@ =~= seq![CPU_COLOR, MEM_COLOR]);
                assert(names@ =~= seq!["cpu", "mem"]);
            }
        }
        let hundred = Num::from_u64(100);
        proof {
            crate::num::arith::lemma_of_range(100);
        }
        render_lanes(&series, &colors, &names, hundred, w, h)
    }

    fn view_history(&self, w: usize, h: usize) -> (r: String)
        requires
            h >= 1,
            2 * w <= usize::MAX,
            4 * h <= usize::MAX,
        ensures
            r@ == self.history_plot(w as nat, h as nat),
    {
        broadcast use group_texts;

        let header = truncate_width(self.history_header().as_str(), w);
        let mut lines: Vec<String> = Vec::new();
        lines.push(pad_line(header.as_str(), w));
        proof {
            assert(texts(lines@) =~= seq![padded(clipped(self.history_head(), w as nat), w as nat)]);
        }
        let lanes = self.render_history(w, h - 1);
        extend(&mut lines, lanes);
        join(&lines, "\n")
    }

    /// The usage of each core.
    pub open spec fn core_totals(self) -> Seq<Num> {
        Seq::new(self.cpu.count as nat, |i: int| self.cpu.of_core(i).total)
    }

    /// The per-core bars with their head.
    pub open spec fn cores_plot(self, w: nat, h: nat) -> Seq<char> {
        joined(
            seq![padded(titled("CORES"@), w)] + bar_lines(self.core_totals(), Num::of(100), w, (h - 1) as nat),
            "\n"@,
        )
    }

    fn core_data(&self) -> (r: Vec<Num>)
        ensures
            r@ == self.core_totals(),
    {
        let mut data: Vec<Num> = Vec::new();
        let mut i: usize = 0;
        while i < self.cpu.count
            invariant
                i <= self.cpu.count,
                data@.len() == i,
                forall|k: int| 0 <= k < i ==> #[trigger] data@[k] == self.cpu.of_core(k).total,
            decreases self.cpu.count - i,
        {
            data.push(self.cpu.core_usage(i).total);
            i = i + 1;
        }
        proof {
            assert(data@ =~= self.core_totals());
        }
        data
    }

    fn view_cores(&self, w: usize, h: usize) -> (r: String)
        requires
            h >= 1,
            2 * self.cpu.count <= usize::MAX,
            self.cpu.count + h <= usize::MAX,
            self.cpu.count + w + 8 <= usize::MAX,
        ensures
            r@ == self.cores_plot(w as nat, h as nat),
    {
        broadcast use group_texts;

        let data = self.core_data();
        let mut lines: Vec<String> = Vec::new();
        lines.push(pad_line(title("CORES").as_str(), w));
        proof {
            assert(texts(lines@) =~= seq![padded(titled("CORES"@), w as nat)]);
            crate::num::arith::lemma_of_range(100);
        }
        let bars = render_core_bars(&data, Num::from_u64(100), w, h - 1);
        proof {
            assert(texts(bars@) =~= bar_lines(data@, Num::of(100), w as nat, (h - 1) as nat));
        }
        extend(&mut lines, bars);
        join(&lines, "\n")
    }

    /// The charts of the main screen: the history, the cores, or both side by
    /// side.
    pub open spec fn charts(self, w: nat, h: nat) -> Seq<char> {
        let (plot_w, cores_w) = split_width(self.controls.show_history, self.controls.show_cores, w);
        let plot = if plot_w > 0 {
            self.history_plot(plot_w, h)
        } else {
            ""@
        };
        if !self.controls.show_cores {
            plot
        } else if plot.len() == 0 {
            self.cores_plot(cores_w, h)
        } else {
            beside(plot, LAYOUT_GAP as nat, self.cores_plot(cores_w, h))
        }
    }

    pub(crate) fn view_charts(&self, w: usize, h: usize) -> (r: String)
        requires
            w >= 20,
            h >= 1,
            4 * w <= usize::MAX,
            4 * h <= usize::MAX,
            4 * self.cpu.count <= usize::MAX,
        ensures
            r@ == self.charts(w as nat, h as nat),
    {
        let (plot_w, cores_w) = chart_split(self.controls.show_history, self.controls.show_cores, w);
        let plot = if plot_w > 0 {
            self.view_history(plot_w, h)
        } else {
            "".to_owned()
        };
        if !self.controls.show_cores {
            return plot;
        }
        let cores = self.view_cores(cores_w, h);
        if plot.as_str().is_empty() {
            return cores;
        }
        join_horizontal_top(plot.as_str(), LAYOUT_GAP, cores.as_str())
    }

    /// The lines that the per-core bars ask for.
    pub open spec fn cores_height(self, w: nat) -> int {
        spaced_height(
            self.cpu.count as nat,
            split_width(self.controls.show_history, self.controls.show_cores, w).1,
        ) + 1
    }

    pub(crate) fn cores_panel_height(&self, w: usize) -> (r: usize)
        requires
            w >= 20,
            self.cpu.count >= 1,
            4 * w <= usize::MAX,
            4 * self.cpu.count <= usize::MAX,
        ensures
            r == self.cores_height(w as nat),
    {
        let (_plot_w, cores_w) = chart_split(self.controls.show_history, self.controls.show_cores, w);
        core_bars_spaced_height(self.cpu.count, cores_w) + 1
    }

    /// The scale of the disk chart: the largest rate in view.
    pub open spec fn disk_scale(self, w: nat) -> Num {
        scale_for(larger(top(tail(self.disk_r_hist@, w)), top(tail(self.disk_w_hist@, w))))
    }

    /// The disk throughput chart with its head.
    pub open spec fn disk_chart(self, w: nat, h: nat) -> Seq<Seq<char>> {
        headed_chart(
            throughput_head(
                "R/W THROUGHPUT"@,
                ("R "@, "W "@),
                (Style::ink(CYAN), Style::ink(PURPLE)),
                (self.disk.read_per_sec, self.disk.write_per_sec),
                self.disk_scale(w),
            ),
            self.disk_r_hist@,
            self.disk_w_hist@,
            seq![CYAN, PURPLE],
            seq!["R", "W"],
            self.disk_scale(w),
            w,
            (h - 1) as nat,
        )
    }

    pub(crate) fn view_disk_chart(&self, w: usize, h: usize) -> (r: Vec<String>)
        requires
            h >= 2,
            4 * w <= usize::MAX,
            4 * h <= usize::MAX,
        ensures
            texts(r@) == self.disk_chart(w as nat, h as nat),
    {
        let scale = scale_of(max_tail(&self.disk_r_hist, w), max_tail(&self.disk_w_hist, w));
        let header = throughput_header(
            "R/W THROUGHPUT",
            ("R ", "W "),
            (disk_read_style(), disk_write_style()),
            (self.disk.read_per_sec, self.disk.write_per_sec),
            scale,
        );
        let mut colors: Vec<u8> = Vec::new();
        colors.push(CYAN);
        colors.push(PURPLE);
        let mut names: Vec<&str> = Vec::new();
        names.push("R");
        names.push("W");
        proof {
            assert(colors@ =~= seq![CYAN, PURPLE]);
            assert(names@ =~= seq!["R", "W"]);
        }
        two_lanes(header.as_str(), &self.disk_r_hist, &self.disk_w_hist, &colors, &names, scale, w, h - 1)
    }

    /// The network throughput chart with its head, scaled to the peak.
    pub open spec fn net_chart(self, w: nat, h: nat) -> Seq<Seq<char>> {
        let scale = scale_for(larger(self.net.peak_rx, self.net.peak_tx));
        headed_chart(
            throughput_head(
                "THROUGHPUT"@,
                ("↓ "@, "↑ "@),
                (Style::ink(RED), Style::ink(BLUE)),
                (self.net.rx_per_sec, self.net.tx_per_sec),
                scale,
            ),
            self.rx_hist@,
            self.tx_hist@,
            seq![RED, BLUE],
            seq!["↓", "↑"],
            scale,
            w,
            (h - 1) as nat,
        )
    }

    pub(crate) fn view_net_chart(&self, w: usize, h: usize) -> (r: Vec<String>)
        requires
            self.wf(),
            h >= 2,
            4 * w <= usize::MAX,
            4 * h <= usize::MAX,
        ensures
            texts(r@) == self.net_chart(w as nat, h as nat),
    {
        let scale = scale_of(self.net.peak_rx, self.net.peak_tx);
        let header = throughput_header(
            "THROUGHPUT",
            ("↓ ", "↑ "),
            (Style::new().fg(RED), Style::new().fg(BLUE)),
            (self.net.rx_per_sec, self.net.tx_per_sec),
            scale,
        );
        let mut colors: Vec<u8> = Vec::new();
        colors.push(RED);
        colors.push(BLUE);
        let mut names: Vec<&str> = Vec::new();
        names.push("↓");
        names.push("↑");
        proof {
            assert(colors@ =~= seq![RED, BLUE]);
            assert(names@ =~= seq!["↓", "↑"]);
        }
        two_lanes(header.as_str(), &self.rx_hist, &self.tx_hist, &colors, &names, scale, w, h - 1)
    }
}

/// Side by side, history and cores share the width but for the gap between
/// them; alone, each has all of it.
pub proof fn lemma_width_shared(w: nat)
    requires
        w >= 20,
    ensures
        ({
            let both = split_width(true, true, w);
            &&& both.0 + LAYOUT_GAP + both.1 == w
            &&& both.0 * 100 <= w * 62 < (both.0 + 1) * 100
        }),
        split_width(true, false, w) == (w, 0nat),
        split_width(false, true, w) == (0nat, w),
        split_width(false, false, w) == (0nat, 0nat),
{
}

/// The disk chart's scale covers every sample in view, and is no larger than
/// the largest unless that is nothing.
pub proof fn lemma_disk_scale_covers(a: App, w: nat, k: int)
    requires
        0 < k <= w,
    ensures
        k <= a.disk_r_hist@.len() && !a.disk_r_hist@[a.disk_r_hist@.len() - k].nan() ==> a.disk_scale(w).at_least(
            a.disk_r_hist@[a.disk_r_hist@.len() - k],
        ),
        k <= a.disk_w_hist@.len() && !a.disk_w_hist@[a.disk_w_hist@.len() - k].nan() ==> a.disk_scale(w).at_least(
            a.disk_w_hist@[a.disk_w_hist@.len() - k],
        ),
        a.disk_scale(w) == Num::of(1) || a.disk_r_hist@.contains(a.disk_scale(w)) || a.disk_w_hist@.contains(
            a.disk_scale(w),
        ),
{
    let r = tail(a.disk_r_hist@, w);
    let s = tail(a.disk_w_hist@, w);
    lemma_top(r);
    lemma_top(s);
    lemma_top_is_a_sample(r);
    lemma_top_is_a_sample(s);
    lemma_of_value(1);
    lemma_value_units(Num::spec_zero());
    lemma_order_value(Num::spec_zero(), Num::of(1));
    if k <= a.disk_r_hist@.len() {
        lemma_tail(a.disk_r_hist@, w, k);
        assert(r[r.len() - k] == a.disk_r_hist@[a.disk_r_hist@.len() - k]);
    }
    if k <= a.disk_w_hist@.len() {
        lemma_tail(a.disk_w_hist@, w, k);
        assert(s[s.len() - k] == a.disk_w_hist@[a.disk_w_hist@.len() - k]);
    }
    assert forall|x: Num| r.contains(x) implies a.disk_r_hist@.contains(x) by {
        lemma_tail_within(a.disk_r_hist@, w, x);
    }
    assert forall|x: Num| s.contains(x) implies a.disk_w_hist@.contains(x) by {
        lemma_tail_within(a.disk_w_hist@, w, x);
    }
}

proof fn lemma_tail_within(h: Seq<Num>, n: nat, x: Num)
    requires
        tail(h, n).contains(x),
    ensures
        h.contains(x),
{
    let t = tail(h, n);
    let i = choose|i: int| 0 <= i < t.len() && t[i] == x;
    assert(h[h.len() - t.len() + i] == x);
}

} // verus!
