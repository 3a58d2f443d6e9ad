//! The dashboard's header and gauges, and the styles that its panels share.

use super::app::App;
use super::gauge::{meter_row, meter_text};
use super::screen::{header_line, header_text};
use crate::chars::{
    group_texts, join, joined, joined2, joined3, numeral, numeral_of, repeated, texts,
};
use crate::metrics::gpu::GpuSummary;
use crate::metrics::{held, lemma_enough, plus_held};
use crate::num::value::{grain, lemma_of_within, lemma_product_within, lemma_quotient_within, lemma_vast, size};
use crate::num::Num;
use crate::style::{
    dim, dimmed, Style, BLACK, CPU_COLOR, CYAN, DISK_COLOR, GPU_COLOR, GPU_MEM_COLOR, GRAY,
    MEM_COLOR, RED, SWAP_COLOR, WHITE,
};
use crate::text::{
    bytes_text, format_bytes, format_uptime, lemma_lights, load_color, load_light, spaces, uptime_text,
    LAYOUT_GAP,
};
use vstd::prelude::*;
use vstd::string::StringExecFns;

verus! {

/// Text that helps.
pub open spec fn helping(s: Seq<char>) -> Seq<char> {
    Style::ink(WHITE).rendered(s)
}

/// Text that warns.
pub open spec fn warning(s: Seq<char>) -> Seq<char> {
    Style::on(WHITE, RED).strong().rendered(s)
}

/// The name of a key in a help bar.
pub open spec fn key_cap(s: Seq<char>) -> Seq<char> {
    Style::ink(WHITE).strong().rendered(s)
}

/// What a key does, in a help bar.
pub open spec fn key_label(s: Seq<char>) -> Seq<char> {
    Style::on(BLACK, CYAN).rendered(s)
}

/// A title.
pub open spec fn titled(s: Seq<char>) -> Seq<char> {
    Style::ink(GRAY).strong().rendered(s)
}

pub(crate) fn help(s: &str) -> (r: String)
    ensures
        r@ == helping(s@),
{
    Style::new().fg(WHITE).render(s)
}

pub(crate) fn kill_bar(s: &str) -> (r: String)
    ensures
        r@ == warning(s@),
{
    Style::new().fg(WHITE).bg(RED).bold().render(s)
}

pub(crate) fn help_key(s: &str) -> (r: String)
    ensures
        r@ == key_cap(s@),
{
    Style::new().fg(WHITE).bold().render(s)
}

pub(crate) fn help_label(s: &str) -> (r: String)
    ensures
        r@ == key_label(s@),
{
    Style::new().fg(BLACK).bg(CYAN).render(s)
}

pub(crate) fn title(s: &str) -> (r: String)
    ensures
        r@ == titled(s@),
{
    Style::new().fg(GRAY).bold().render(s)
}

/// The frequencies above zero added up, in order, and how many there are.
pub open spec fn running(f: Seq<Num>) -> (Num, nat)
    decreases f.len(),
{
    if f.len() == 0 {
        (Num::spec_zero(), 0)
    } else {
        let (sum, n) = running(f.drop_last());
        if Num::spec_zero().less(f.last()) {
            (sum.sum(f.last()), n + 1)
        } else {
            (sum, n)
        }
    }
}

/// The mean of the frequencies that are known.
pub open spec fn mean_known(f: Seq<Num>) -> Num {
    let (sum, n) = running(f);
    if n == 0 {
        Num::spec_zero()
    } else {
        sum.quotient(Num::of(n))
    }
}

fn mean_freq(freqs: &Vec<Num>) -> (r: Num)
    ensures
        r == mean_known(freqs@),
{
    let mut sum = Num::zero();
    let mut n: usize = 0;
    let mut i: usize = 0;
    proof {
        assert(freqs@.take(0).len() == 0);
    }
    while i < freqs.len()
        invariant
            i <= freqs@.len(),
            n <= i,
            (sum, n as nat) == running(freqs@.take(i as int)),
        decreases freqs@.len() - i,
    {
        proof {
            assert(freqs@.take(i + 1).drop_last() =~= freqs@.take(i as int));
        }
        let f = freqs[i];
        if Num::zero().lt(f) {
            sum = sum.plus(f);
            n = n + 1;
        }
        i = i + 1;
    }
    proof {
        assert(freqs@.take(freqs@.len() as int) =~= freqs@);
    }
    if n == 0 {
        Num::zero()
    } else {
        sum.over(Num::from_u64(n as u64))
    }
}

/// Whether a view is on.
pub open spec fn on_off_text(b: bool) -> Seq<char> {
    if b {
        "(on)"@
    } else {
        "(off)"@
    }
}

pub(crate) fn on_off(b: bool) -> (r: &'static str)
    ensures
        r@ == on_off_text(b),
{
    if b {
        "(on)"
    } else {
        "(off)"
    }
}

/// A load average, colored against the number of cores.
pub open spec fn load_cell(v: Num, cores: Num) -> Seq<char> {
    Style::ink(load_light(v.quotient(cores).product(Num::of(100)))).rendered(v.fixed(2))
}

fn load_text(v: Num, cores: Num) -> (r: String)
    ensures
        r@ == load_cell(v, cores),
{
    let color = load_color(v.over(cores).times(Num::from_u64(100)));
    Style::new().fg(color).render(v.to_fixed(2).as_str())
}

/// A gauge: what it measures, how much and in which color.
#[verifier::ext_equal]
pub struct Meter {
    pub label: Seq<char>,
    pub detail: Seq<char>,
    pub percent: Num,
    pub color: u8,
}

struct MeterSpec {
    label: &'static str,
    detail: String,
    percent: Num,
    color: u8,
}

impl MeterSpec {
    spec fn meter(self) -> Meter {
        Meter { label: self.label@, detail: self.detail@, percent: self.percent, color: self.color }
    }
}

spec fn meters(v: Seq<MeterSpec>) -> Seq<Meter> {
    Seq::new(v.len(), |i: int| v[i].meter())
}

proof fn lemma_meters_push(v: Seq<MeterSpec>, m: MeterSpec)
    ensures
        meters(v.push(m)) == meters(v).push(m.meter()),
{
    assert(meters(v.push(m)) =~= meters(v).push(m.meter()));
}

/// So many of so many bytes.
pub open spec fn share_text(used: u64, total: u64) -> Seq<char> {
    bytes_text(used as nat) + " / "@ + bytes_text(total as nat)
}

fn share(used: u64, total: u64) -> (r: String)
    ensures
        r@ == share_text(used, total),
{
    joined3(format_bytes(used).as_str(), " / ", format_bytes(total).as_str())
}

/// The GPUs' temperature, power and number, as far as they are known.
pub open spec fn gpu_notes(s: GpuSummary) -> Seq<Seq<char>> {
    let a: Seq<Seq<char>> = if s.max_temp > 0 {
        seq![numeral(s.max_temp as nat) + "°C"@]
    } else {
        seq![]
    };
    let b = if s.power_draw > 0 {
        a.push(numeral((s.power_draw / 1000) as nat) + "W"@)
    } else {
        a
    };
    if s.count > 1 {
        b.push("×"@ + numeral(s.count as nat))
    } else {
        b
    }
}

fn gpu_detail(s: &GpuSummary) -> (r: String)
    ensures
        r@ == joined(gpu_notes(*s), " "@),
{
    broadcast use group_texts;

    let mut gp: Vec<String> = Vec::new();
    if s.max_temp > 0 {
        gp.push(joined2(numeral_of(s.max_temp as u64).as_str(), "°C"));
    }
    if s.power_draw > 0 {
        gp.push(joined2(numeral_of((s.power_draw / 1000) as u64).as_str(), "W"));
    }
    if s.count > 1 {
        gp.push(joined2("×", numeral_of(s.count as u64).as_str()));
    }
    proof {
        assert(texts(gp@) =~= gpu_notes(*s));
    }
    join(&gp, " ")
}

/// The row of gauges from the `i`-th on: one, or two side by side.
pub open spec fn gauge_row(m: Seq<Meter>, i: int, two: bool, cw: nat) -> Seq<char> {
    let a = meter_text(m[i].label, m[i].detail, m[i].percent, m[i].color, cw);
    if two && i + 1 < m.len() {
        a + repeated(' ', LAYOUT_GAP as nat) + meter_text(
            m[i + 1].label,
            m[i + 1].detail,
            m[i + 1].percent,
            m[i + 1].color,
            cw,
        )
    } else {
        a
    }
}

/// The rows of the first `n` rows of gauges, a blank line between them.
pub open spec fn gauge_rows(m: Seq<Meter>, n: nat, two: bool, cw: nat) -> Seq<Seq<char>>
    decreases n,
{
    if n == 0 {
        seq![]
    } else {
        let before = gauge_rows(m, (n - 1) as nat, two, cw);
        let at = if two {
            2 * (n - 1)
        } else {
            n - 1
        };
        if n == 1 {
            before.push(gauge_row(m, at, two, cw))
        } else {
            before.push(""@).push(gauge_row(m, at, two, cw))
        }
    }
}

/// The gauges of a width: in two columns where there is room and reason.
pub open spec fn gauge_lines(m: Seq<Meter>, w: nat) -> Seq<Seq<char>> {
    if w >= 110 && m.len() > 2 {
        gauge_rows(m, (m.len() + 1) / 2, true, ((w - LAYOUT_GAP) / 2) as nat)
    } else {
        gauge_rows(m, m.len(), false, w)
    }
}

fn meter_of(m: &MeterSpec, cw: usize) -> (r: String)
    ensures
        r@ == meter_text(m.meter().label, m.meter().detail, m.percent, m.color, cw as nat),
{
    meter_row(m.label, m.detail.as_str(), m.percent, m.color, cw)
}

impl App {
    /// The header: load averages and uptime.
    pub open spec fn header(self, w: nat) -> Seq<char> {
        let cores = if Num::of(self.cpu.count as nat).less(Num::of(1)) {
            Num::of(1)
        } else {
            Num::of(self.cpu.count as nat)
        };
        let loads = seq![
            load_cell(self.sys.load1, cores),
            load_cell(self.sys.load5, cores),
            load_cell(self.sys.load15, cores),
        ];
        header_text(
            dimmed("load "@) + joined(loads, " "@) + dimmed("   up "@) + helping(uptime_text(self.sys.uptime_secs as nat)),
            ""@,
            w,
        )
    }

    pub(crate) fn view_header(&self, w: usize) -> (r: String)
        ensures
            r@ == self.header(w as nat),
    {
        broadcast use group_texts;

        let mut cores = Num::from_u64(self.cpu.count as u64);
        if cores.lt(Num::from_u64(1)) {
            cores = Num::from_u64(1);
        }
        let mut loads: Vec<String> = Vec::new();
        loads.push(load_text(self.sys.load1, cores));
        loads.push(load_text(self.sys.load5, cores));
        loads.push(load_text(self.sys.load15, cores));
        proof {
            assert(texts(loads@) =~= seq![
                load_cell(self.sys.load1, cores),
                load_cell(self.sys.load5, cores),
                load_cell(self.sys.load15, cores),
            ]);
        }
        let mut status = dim("load ");
        status.append(join(&loads, " ").as_str());
        status.append(dim("   up ").as_str());
        status.append(help(format_uptime(self.sys.uptime_secs).as_str()).as_str());
        header_line(status.as_str(), "", w)
    }

    /// The detail of the CPU gauge: frequency and temperature where they are
    /// known, and where the time goes.
    pub open spec fn cpu_notes(self) -> Seq<char> {
        let u = self.cpu.overall();
        let f = mean_known(self.cpu.freq@);
        let a = if Num::spec_zero().less(f) {
            ""@ + f.quotient(Num::of(1000)).fixed(1) + "GHz "@
        } else {
            ""@
        };
        let b = if Num::spec_zero().less(self.cpu.temp) {
            a + self.cpu.temp.fixed(0) + "°C "@
        } else {
            a
        };
        b + " usr "@ + u.user.fixed(0) + " sys "@ + u.system.fixed(0) + " iow "@ + u.iowait.fixed(0)
    }

    fn cpu_detail(&self) -> (r: String)
        ensures
            r@ == self.cpu_notes(),
    {
        let agg = self.cpu.aggregate();
        let f = mean_freq(&self.cpu.freq);
        let mut detail = "".to_owned();
        if Num::zero().lt(f) {
            detail.append(f.over(Num::from_u64(1000)).to_fixed(1).as_str());
            detail.append("GHz ");
        }
        if Num::zero().lt(self.cpu.temp) {
            detail.append(self.cpu.temp.to_fixed(0).as_str());
            detail.append("°C ");
        }
        detail.append(" usr ");
        detail.append(agg.user.to_fixed(0).as_str());
        detail.append(" sys ");
        detail.append(agg.system.to_fixed(0).as_str());
        detail.append(" iow ");
        detail.append(agg.iowait.to_fixed(0).as_str());
        detail
    }

    /// The gauges of the sections that are on and that the machine has.
    pub open spec fn gauges(self) -> Seq<Meter> {
        let r = self.mem.ram;
        let a: Seq<Meter> = if self.cfg.cpu {
            seq![
                Meter {
                    label: "CPU"@,
                    detail: self.cpu_notes(),
                    percent: self.cpu.overall().total,
                    color: CPU_COLOR,
                },
            ]
        } else {
            seq![]
        };
        let b = if self.cfg.memory {
            a.push(
                Meter {
                    label: "MEM"@,
                    detail: share_text(r.used, r.total) + "  cache "@ + bytes_text(held((r.cached + r.buffers) as nat)),
                    percent: r.used_percent,
                    color: MEM_COLOR,
                },
            )
        } else {
            a
        };
        let c = if self.cfg.swap && self.mem.swaps() {
            b.push(
                Meter {
                    label: "SWP"@,
                    detail: share_text(self.mem.swap.used, self.mem.swap.total),
                    percent: self.mem.swap.used_percent,
                    color: SWAP_COLOR,
                },
            )
        } else {
            b
        };
        let d = if self.cfg.disk {
            c.push(
                Meter {
                    label: "DSK"@,
                    detail: share_text(self.disk.used, self.disk.total),
                    percent: self.disk.used_percent,
                    color: DISK_COLOR,
                },
            )
        } else {
            c
        };
        match self.gpu_figures() {
            Some(s) => d.push(
                Meter {
                    label: "GPU"@,
                    detail: joined(gpu_notes(s), " "@),
                    percent: s.gpu_util,
                    color: GPU_COLOR,
                },
            ).push(
                Meter {
                    label: "VRAM"@,
                    detail: share_text(s.mem_used, s.mem_total),
                    percent: s.mem_used_percent,
                    color: GPU_MEM_COLOR,
                },
            ),
            None => d,
        }
    }

    fn meter_specs(&self) -> (r: Vec<MeterSpec>)
        ensures
            meters(r@) == self.gauges(),
            r@.len() <= 6,
    {
        let mut specs: Vec<MeterSpec> = Vec::new();
        proof {
            assert(meters(specs@) =~= seq![]);
        }
        if self.cfg.cpu {
            let m = MeterSpec {
                label: "CPU",
                detail: self.cpu_detail(),
                percent: self.cpu.aggregate().total,
                color: CPU_COLOR,
            };
            proof {
                lemma_meters_push(specs@, m);
            }
            specs.push(m);
            proof {
                assert(meters(specs@) =~= seq![
                    Meter {
                        label: "CPU"@,
                        detail: self.cpu_notes(),
                        percent: self.cpu.overall().total,
                        color: CPU_COLOR,
                    },
                ]);
            }
        }
        if self.cfg.memory {
            let r = self.mem.ram;
            let m = MeterSpec {
                label: "MEM",
                detail: joined3(
                    share(r.used, r.total).as_str(),
                    "  cache ",
                    format_bytes(plus_held(r.cached, r.buffers)).as_str(),
                ),
                percent: r.used_percent,
                color: MEM_COLOR,
            };
            proof {
                lemma_meters_push(specs@, m);
            }
            specs.push(m);
        }
        if self.cfg.swap && self.mem.has_swap() {
            let m = MeterSpec {
                label: "SWP",
                detail: share(self.mem.swap.used, self.mem.swap.total),
                percent: self.mem.swap.used_percent,
                color: SWAP_COLOR,
            };
            proof {
                lemma_meters_push(specs@, m);
            }
            specs.push(m);
        }
        if self.cfg.disk {
            let m = MeterSpec {
                label: "DSK",
                detail: share(self.disk.used, self.disk.total),
                percent: self.disk.used_percent,
                color: DISK_COLOR,
            };
            proof {
                lemma_meters_push(specs@, m);
            }
            specs.push(m);
        }
        if let Some(s) = self.gpu_summary() {
            let g = MeterSpec { label: "GPU", detail: gpu_detail(&s), percent: s.gpu_util, color: GPU_COLOR };
            proof {
                lemma_meters_push(specs@, g);
            }
            specs.push(g);
            let v = MeterSpec {
                label: "VRAM",
                detail: share(s.mem_used, s.mem_total),
                percent: s.mem_used_percent,
                color: GPU_MEM_COLOR,
            };
            proof {
                lemma_meters_push(specs@, v);
            }
            specs.push(v);
        }
        specs
    }

    pub(crate) fn view_gauges(&self, w: usize) -> (r: Vec<String>)
        ensures
            texts(r@) == gauge_lines(self.gauges(), w as nat),
    {
        let specs = self.meter_specs();
        stack_gauges(&specs, w)
    }
}

/// The gauges of a width: in two columns where there is room and reason.
fn stack_gauges(specs: &Vec<MeterSpec>, w: usize) -> (r: Vec<String>)
    requires
        specs@.len() <= 6,
    ensures
        texts(r@) == gauge_lines(meters(specs@), w as nat),
{
    broadcast use group_texts;

    let k: usize = specs.len();
    let two = w >= 110 && k > 2;
    let cols: usize = if two {
        2
    } else {
        1
    };
    let cw: usize = if two {
        (w - LAYOUT_GAP) / 2
    } else {
        w
    };
    let ghost m = meters(specs@);
    let mut rows: Vec<String> = Vec::new();
    let mut i: usize = 0;
    let mut n: usize = 0;
    proof {
        assert(texts(rows@) =~= gauge_rows(m, 0, two, cw as nat));
    }
    while i < k
        invariant
            k == specs@.len(),
            k <= 6,
            m == meters(specs@),
            cols == if two {
                2usize
            } else {
                1usize
            },
            i == n * cols,
            n <= 6,
            i < k + cols,
            n == 0 <==> rows@.len() == 0,
            rows@.len() <= 2 * n,
            n >= 1 ==> rows@.len() == 2 * n - 1,
            texts(rows@) == gauge_rows(m, n as nat, two, cw as nat),
        decreases k + 2 - i,
    {
        broadcast use group_texts;

        proof {
            assert(m[i as int] == specs@[i as int].meter());
            if i + 1 < k {
                assert(m[i + 1] == specs@[i + 1].meter());
            }
        }
        if rows.len() > 0 {
            rows.push("".to_owned());
        }
        let mut row = meter_of(&specs[i], cw);
        if two && i + 1 < k {
            row.append(spaces(LAYOUT_GAP).as_str());
            row.append(meter_of(&specs[i + 1], cw).as_str());
        }
        proof {
            assert(row@ == gauge_row(m, i as int, two, cw as nat));
        }
        rows.push(row);
        i = i + cols;
        n = n + 1;
    }
    rows
}

/// The section's gauge: the only one under its label where the section is
/// shown, and none where it is not.
pub open spec fn gauged(m: Seq<Meter>, label: Seq<char>, shown: bool, percent: Num) -> bool {
    &&& shown ==> exists|i: int| 0 <= i < m.len() && (#[trigger] m[i]).label == label
    &&& forall|i: int| 0 <= i < m.len() && (#[trigger] m[i]).label == label ==> shown && m[i].percent == percent
}

/// The gauges: `CPU` shows the usage of all cores, `MEM` and `SWP` the used
/// share of the memory and of the swap, `DSK` that of the root filesystem,
/// `GPU` and `VRAM` the utilisation and the used memory over all GPUs; each
/// where its section is on and the machine has it.
pub proof fn lemma_gauges(a: App)
    ensures
        gauged(a.gauges(), "CPU"@, a.cfg.cpu, a.cpu.overall().total),
        gauged(a.gauges(), "MEM"@, a.cfg.memory, a.mem.ram.used_percent),
        gauged(a.gauges(), "SWP"@, a.cfg.swap && a.mem.swap.total > 0, a.mem.swap.used_percent),
        gauged(a.gauges(), "DSK"@, a.cfg.disk, a.disk.used_percent),
        gauged(a.gauges(), "GPU"@, a.cfg.gpu && a.gpu.overall() is Some, a.gpu.overall()->0.gpu_util),
        gauged(a.gauges(), "VRAM"@, a.cfg.gpu && a.gpu.overall() is Some, a.gpu.overall()->0.mem_used_percent),
{
    reveal_strlit("CPU");
    reveal_strlit("MEM");
    reveal_strlit("SWP");
    reveal_strlit("DSK");
    reveal_strlit("GPU");
    reveal_strlit("VRAM");
    assert("CPU"@[0] == 'C' && "MEM"@[0] == 'M' && "SWP"@[0] == 'S' && "DSK"@[0] == 'D' && "GPU"@[0] == 'G' && "VRAM"@[0]
        == 'V');
    let m = a.gauges();
    let c: int = if a.cfg.cpu {
        1
    } else {
        0
    };
    let d: int = c + if a.cfg.memory {
        1int
    } else {
        0
    };
    let e: int = d + if a.cfg.swap && a.mem.swaps() {
        1int
    } else {
        0
    };
    let f: int = e + if a.cfg.disk {
        1int
    } else {
        0
    };
    if a.cfg.cpu {
        assert(m[0].label == "CPU"@);
    }
    if a.cfg.memory {
        assert(m[c].label == "MEM"@);
    }
    if a.cfg.swap && a.mem.swaps() {
        assert(m[d].label == "SWP"@);
    }
    if a.cfg.disk {
        assert(m[e].label == "DSK"@);
    }
    if a.gpu_figures() is Some {
        assert(m[f].label == "GPU"@);
        assert(m[f + 1].label == "VRAM"@);
    }
}

/// A load average has the traffic light of its share of the cores: red from 85
/// percent on, yellow from 60, green below, up to a millionth of a percent.
pub proof fn lemma_load_lights(v: Num, n: nat)
    requires
        v.finite(),
        !v.negative(),
        v.value() * 1000 as real >= 1 as real,
        v.value() <= 0x100_0000_0000 as real,
        1 <= n <= 0x1_0000_0000,
    ensures
        ({
            let share = v.value() / n as real * 100 as real;
            let shown = |color: u8| load_cell(v, Num::of(n)) == Style::ink(color).rendered(v.fixed(2));
            &&& share * 1_000_000 as real >= 85_000_001 as real ==> shown(1)
            &&& share * 1_000_000 as real >= 60_000_001 as real && share * 1_000_000 as real <= 84_999_999 as real
                ==> shown(3)
            &&& share * 1_000_000 as real <= 59_999_999 as real ==> shown(2)
        }),
{
    let x = v.value();
    let y = n as real;
    let q = x / y;
    lemma_of_within(n);
    lemma_of_within(100);
    lemma_vast();
    assert(size(x - x) <= x * (0 as real * grain()));
    assert(q * 0x1_0000_0000_0000_0000 as real >= 1 as real && q <= x) by (nonlinear_arith)
        requires
            q == x / y,
            x * 1000 as real >= 1 as real,
            y >= 1 as real,
            y <= 0x1_0000_0000 as real,
    {
        assert(q * y == x);
        assert(q > 0 as real);
        assert(q * y >= q);
        assert(q * y <= q * 0x1_0000_0000 as real);
        assert(q * 0x1_0000_0000 as real * 1000 as real >= 1 as real);
    }
    assert(q * 0x1_0000_0000_0000_0000 as real * 0x1_0000_0000_0000_0000 as real >= 1 as real);
    lemma_enough(q);
    lemma_quotient_within(v, Num::of(n), x, y, 0 as real, 0 as real);
    let r = q * 100 as real;
    assert(r * 0x1_0000_0000_0000_0000 as real * 0x1_0000_0000_0000_0000 as real >= 1 as real);
    lemma_enough(r);
    lemma_product_within(v.quotient(Num::of(n)), Num::of(100), q, 100 as real, 4 as real, 0 as real);
    let c = v.quotient(Num::of(n)).product(Num::of(100));
    let g = grain();
    assert(size(c.value() - r) <= r * (8 as real * g));
    assert(r * (8 as real * g) * 1_000_000_000 as real <= r) by (nonlinear_arith)
        requires
            r > 0 as real,
            g == 1 as real / 0x20_0000_0000_0000 as real,
    ;
    lemma_lights(c);
}

/// A core whose frequency is not known does not count in the mean.
pub proof fn lemma_unknown_not_counted(f: Seq<Num>, z: Num)
    requires
        !Num::spec_zero().less(z),
    ensures
        mean_known(f.push(z)) == mean_known(f),
{
    assert(f.push(z).drop_last() =~= f);
}

} // verus!
