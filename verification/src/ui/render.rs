//! The screens of the dashboard.

use super::app::App;
use super::bars::{disk_gauges, mount_panel};
use super::charts::extend;
use super::controls::ControlsModel;
use super::panels::gauge_lines;
use super::screen::{
    frame_screen, framed, lemma_framed_lines, lemma_newlines_join, line_count, lines_of_all, newlines, total_height, PAD_X,
    PAD_Y,
};
use crate::chars::{group_texts, join, joined, texts};
use crate::style::{dim, dimmed, Style, WHITE};
use crate::text::{fitted, pad_truncate, repeat, tiled};
use vstd::prelude::*;

verus! {

/// The height of a view's chart on a screen of `h` lines.
pub open spec fn chart_height(h: nat) -> nat {
    if h < 22 {
        3
    } else if h < 30 {
        4
    } else {
        6
    }
}

fn chart_rows(h: usize) -> (r: usize)
    ensures
        r == chart_height(h as nat),
{
    if h < 22 {
        3
    } else if h < 30 {
        4
    } else {
        6
    }
}

/// What is left of `h` lines for a list below `used` lines and above the help
/// line; at least three.
pub open spec fn list_height(h: nat, used: nat) -> nat {
    if h < used + 4 {
        3
    } else {
        (h - used - 1) as nat
    }
}

fn list_rows(h: usize, used: u128) -> (r: usize)
    ensures
        r == list_height(h as nat, used as nat),
        r <= h || r == 3,
{
    if (h as u128) < 4 || (h as u128 - 4) < used {
        3
    } else {
        h - used as usize - 1
    }
}

/// Rows, blank lines down to the last and the help line, framed.
pub open spec fn finished(rows: Seq<Seq<char>>, h: nat, help: Seq<char>) -> Seq<char> {
    framed(filled_up(rows, h).push(help))
}

/// Rows filled up with blank lines down to the last but one of `h`.
pub open spec fn filled_up(rows: Seq<Seq<char>>, h: nat) -> Seq<Seq<char>> {
    let used = lines_of_all(rows);
    if used + 1 < h {
        rows.push(tiled("\n"@, (h - used - 2) as nat))
    } else {
        rows
    }
}

fn finish(rows: Vec<String>, h: usize, help: String) -> (r: String)
    ensures
        r@ == finished(texts(rows@), h as nat, help@),
{
    broadcast use group_texts;

    let mut all = rows;
    let used: u128 = total_height(&all);
    if used < h as u128 && used + 1 < h as u128 {
        let filler: usize = (h as u128 - used - 2) as usize;
        all.push(repeat("\n", filler));
    }
    all.push(help);
    frame_screen(&all)
}

/// The heights of the charts and of the process table.
pub struct Panes {
    pub chart: nat,
    pub table: nat,
}

/// How `body` lines of a screen of `h` are shared between charts and process
/// table. The cores ask for `cores` lines where they are shown.
pub open spec fn panes(h: nat, body: nat, charts: bool, table: bool, cores: Option<int>) -> Panes {
    if charts && table {
        let share = (h * 22 / 100) as int;
        let wanted = match cores {
            Some(c) => {
                let w = if c > share {
                    c
                } else {
                    share
                };
                if body >= 5 && w > body - 5 {
                    body - 5
                } else {
                    w
                }
            },
            None => share,
        };
        let chart = if wanted < 5 {
            5
        } else {
            wanted
        };
        if body - chart - 1 < 4 {
            Panes {
                chart: if body < 5 {
                    0
                } else {
                    (body - 5) as nat
                },
                table: 4,
            }
        } else {
            Panes { chart: chart as nat, table: (body - chart - 1) as nat }
        }
    } else if charts {
        Panes { chart: body, table: 0 }
    } else if table {
        Panes { chart: 0, table: body }
    } else {
        Panes { chart: 0, table: 0 }
    }
}

fn share_body(h: usize, body: usize, charts: bool, table: bool, cores: Option<usize>) -> (r: (usize, usize))
    requires
        body <= h,
    ensures
        ({
            let p = panes(
                h as nat,
                body as nat,
                charts,
                table,
                match cores {
                    Some(c) => Some(c as int),
                    None => None,
                },
            );
            r.0 == p.chart && r.1 == p.table
        }),
        r.0 <= h,
        r.1 <= h || r.1 == 4,
{
    if charts && table {
        let mut ch: usize = (h as u128 * 22 / 100) as usize;
        if let Some(c) = cores {
            if c > ch {
                ch = c;
            }
            if body >= 5 && ch > body - 5 {
                ch = body - 5;
            }
        }
        if ch < 5 {
            ch = 5;
        }
        if body < 5 || ch > body - 5 {
            (
                if body < 5 {
                    0
                } else {
                    body - 5
                },
                4,
            )
        } else {
            (ch, body - ch - 1)
        }
    } else if charts {
        (body, 0)
    } else if table {
        (0, body)
    } else {
        (0, 0)
    }
}

impl App {
    /// The screen fits the machine's numbers.
    pub open spec fn fits(self) -> bool {
        4 * self.width <= usize::MAX && 4 * self.height <= usize::MAX && 4 * self.cpu.count <= usize::MAX
    }

    /// The rows of the disk view above its list.
    pub open spec fn disk_rows(self, w: nat, h: nat) -> Seq<Seq<char>> {
        (seq![self.header(w), ""@, self.disk_head()] + mount_panel(self.mounts@)).push(""@) + self.disk_chart(
            w,
            chart_height(h),
        ).push(""@)
    }

    /// The height of the disk view's list.
    pub open spec fn disk_list(self, w: nat, h: nat) -> nat {
        list_height(h, lines_of_all(self.disk_rows(w, h)))
    }

    /// The disk view.
    pub open spec fn disk_screen(self, w: nat, h: nat) -> Seq<char> {
        let n = self.disk_list(w, h);
        let t = self.model().disktable.viewed(w, n);
        finished(self.disk_rows(w, h) + t.lines(w, n), h, self.disk_help(w))
    }

    fn disk_rows_of(&self, w: usize, h: usize) -> (r: Vec<String>)
        requires
            self.fits(),
            w <= self.width,
            h <= self.height,
            h >= 12,
        ensures
            texts(r@) == self.disk_rows(w as nat, h as nat),
    {
        broadcast use group_texts;

        let mut rows: Vec<String> = Vec::new();
        rows.push(self.view_header(w));
        rows.push("".to_owned());
        rows.push(self.disk_info_line());
        proof {
            assert(texts(rows@) =~= seq![self.header(w as nat), ""@, self.disk_head()]);
        }
        extend(&mut rows, disk_gauges(&self.mounts));
        rows.push("".to_owned());
        let ch: usize = chart_rows(h);
        let mut chart = self.view_disk_chart(w, ch);
        chart.push("".to_owned());
        extend(&mut rows, chart);
        rows
    }

    /// The rows of the network view above its list.
    pub open spec fn net_rows(self, w: nat, h: nat) -> Seq<Seq<char>> {
        let a = seq![self.header(w), ""@, self.net_head()];
        (if self.addresses().len() > 0 {
            a.push(self.addresses())
        } else {
            a
        }) + self.net_chart(w, chart_height(h)).push(""@)
    }

    /// The height of the network view's list.
    pub open spec fn net_list(self, w: nat, h: nat) -> nat {
        list_height(h, lines_of_all(self.net_rows(w, h)))
    }

    /// What the network view shows where it takes more rights.
    pub open spec fn root_note() -> Seq<Seq<char>> {
        seq![
            dimmed("per-connection bandwidth needs root — rerun with "@),
            Style::ink(WHITE).strong().rendered("  sudo teatop"@),
        ]
    }

    /// The network view.
    pub open spec fn net_screen(self, w: nat, h: nat) -> Seq<char> {
        let n = self.net_list(w, h);
        let t = self.model().nettable.viewed(w, n);
        finished(
            self.net_rows(w, h) + (if self.procnet.need_root {
                App::root_note()
            } else {
                t.lines(w, n)
            }),
            h,
            self.net_help(w),
        )
    }

    fn net_rows_of(&self, w: usize, h: usize) -> (r: Vec<String>)
        requires
            self.wf(),
            self.fits(),
            w <= self.width,
            h <= self.height,
            h >= 12,
        ensures
            texts(r@) == self.net_rows(w as nat, h as nat),
    {
        broadcast use group_texts;

        let mut rows: Vec<String> = Vec::new();
        rows.push(self.view_header(w));
        rows.push("".to_owned());
        rows.push(self.net_info_line());
        proof {
            assert(texts(rows@) =~= seq![self.header(w as nat), ""@, self.net_head()]);
        }
        let ips = self.net_addr_line();
        if !ips.as_str().is_empty() {
            rows.push(ips);
        }
        let ch: usize = chart_rows(h);
        let mut chart = self.view_net_chart(w, ch);
        chart.push("".to_owned());
        extend(&mut rows, chart);
        rows
    }

    /// The lines between the header and the help line.
    pub open spec fn body_height(self, w: nat, h: nat) -> nat {
        let head = if self.cfg.system {
            2int
        } else {
            0
        };
        let g = gauge_lines(self.gauges(), w).len();
        let gauge_h = if g > 0 {
            g + 1
        } else {
            0
        };
        if h - head - gauge_h - 1 > 0 {
            (h - head - gauge_h - 1) as nat
        } else {
            0
        }
    }

    /// The panes of the main screen.
    pub open spec fn main_panes(self, w: nat, h: nat) -> Panes {
        panes(
            h,
            self.body_height(w, h),
            self.controls.show_history || self.controls.show_cores,
            self.cfg.processes,
            if self.controls.show_cores {
                Some(self.cores_height(w))
            } else {
                None
            },
        )
    }

    /// The rows of the main screen above the process table.
    pub open spec fn main_rows(self, w: nat, h: nat) -> Seq<Seq<char>> {
        let p = self.main_panes(w, h);
        let a: Seq<Seq<char>> = if self.cfg.system {
            seq![self.header(w), ""@]
        } else {
            seq![]
        };
        let g = gauge_lines(self.gauges(), w);
        let b = if g.len() > 0 {
            (a + g).push(""@)
        } else {
            a + g
        };
        if p.chart > 0 {
            if p.table > 0 {
                b.push(self.charts(w, p.chart)).push(""@)
            } else {
                b.push(self.charts(w, p.chart))
            }
        } else {
            b
        }
    }

    /// The screen line of the first process, as far as the machine can count.
    pub open spec fn table_line(self, w: nat, h: nat) -> nat {
        if self.main_panes(w, h).table > 0 {
            let line = PAD_Y + lines_of_all(self.main_rows(w, h)) + 2;
            if line > usize::MAX {
                usize::MAX as nat
            } else {
                line as nat
            }
        } else {
            0
        }
    }

    /// The process table with its title.
    pub open spec fn table_text(self, w: nat, h: nat) -> Seq<char> {
        let t = self.model().table.viewed(w, (h - 1) as nat);
        joined(seq![dimmed(fitted(self.model().table.title(), w))] + t.lines(w, (h - 1) as nat), "\n"@)
    }

    /// The main screen.
    pub open spec fn main_screen(self, w: nat, h: nat) -> Seq<char> {
        let p = self.main_panes(w, h);
        finished(
            if p.table > 0 {
                self.main_rows(w, h).push(self.table_text(w, p.table))
            } else {
                self.main_rows(w, h)
            },
            h,
            self.help_text(w),
        )
    }

    /// Whether the screen is too small to show anything.
    pub open spec fn too_small(self) -> bool {
        self.width < 20 + 2 * PAD_X || self.height < 12 + 2 * PAD_Y
    }

    /// The whole screen: the view on top, or a note where there is no room.
    pub open spec fn screen(self) -> Seq<char> {
        let w = (self.width - 2 * PAD_X) as nat;
        let h = (self.height - 2 * PAD_Y) as nat;
        if self.too_small() {
            "terminal too small for teatop"@
        } else if self.controls.show_net && self.cfg.system {
            self.net_screen(w, h)
        } else if self.controls.show_disks && self.cfg.disk {
            self.disk_screen(w, h)
        } else {
            self.main_screen(w, h)
        }
    }

    /// What drawing leaves behind: the list that was drawn has its selection
    /// in view.
    pub open spec fn drawn(self) -> ControlsModel {
        let w = (self.width - 2 * PAD_X) as nat;
        let h = (self.height - 2 * PAD_Y) as nat;
        let m = self.model();
        if self.too_small() {
            m
        } else if self.controls.show_net && self.cfg.system {
            if self.procnet.need_root {
                m
            } else {
                ControlsModel { nettable: m.nettable.viewed(w, self.net_list(w, h)), ..m }
            }
        } else if self.controls.show_disks && self.cfg.disk {
            ControlsModel { disktable: m.disktable.viewed(w, self.disk_list(w, h)), ..m }
        } else {
            let p = self.main_panes(w, h);
            ControlsModel {
                table: if p.table > 0 {
                    m.table.viewed(w, (p.table - 1) as nat)
                } else {
                    m.table
                },
                table_top: self.table_line(w, h),
                ..m
            }
        }
    }

    #[verifier::rlimit(60)]
    fn main_rows_of(&self, w: usize, gauges: Vec<String>, chart_h: usize, table_h: usize) -> (r: Vec<String>)
        requires
            self.fits(),
            20 <= w <= self.width,
            chart_h <= self.height,
        ensures
            ({
                let a: Seq<Seq<char>> = if self.cfg.system {
                    seq![self.header(w as nat), ""@]
                } else {
                    seq![]
                };
                let b = if gauges@.len() > 0 {
                    (a + texts(gauges@)).push(""@)
                } else {
                    a + texts(gauges@)
                };
                texts(r@) == if chart_h > 0 {
                    if table_h > 0 {
                        b.push(self.charts(w as nat, chart_h as nat)).push(""@)
                    } else {
                        b.push(self.charts(w as nat, chart_h as nat))
                    }
                } else {
                    b
                }
            }),
    {
        broadcast use group_texts;

        let mut rows: Vec<String> = Vec::new();
        proof {
            assert(texts(rows@) =~= seq![]);
        }
        if self.cfg.system {
            rows.push(self.view_header(w));
            rows.push("".to_owned());
            proof {
                assert(texts(rows@) =~= seq![self.header(w as nat), ""@]);
            }
        }
        let some = gauges.len() > 0;
        extend(&mut rows, gauges);
        if some {
            rows.push("".to_owned());
        }
        if chart_h > 0 {
            rows.push(self.view_charts(w, chart_h));
            if table_h > 0 {
                rows.push("".to_owned());
            }
        }
        rows
    }

    #[verifier::rlimit(60)]
    fn view_table(&mut self, w: usize, h: usize) -> (r: String)
        requires
            old(self).wf(),
            h >= 1,
        ensures
            final(self).wf(),
            r@ == old(self).table_text(w as nat, h as nat),
            final(self).model() == (ControlsModel {
                table: old(self).model().table.viewed(w as nat, (h - 1) as nat),
                ..old(self).model()
            }),
            *final(self) == (App { controls: final(self).controls, ..*old(self) }),
    {
        broadcast use group_texts;

        let mut lines: Vec<String> = Vec::new();
        lines.push(dim(pad_truncate(self.controls.table.title().as_str(), w).as_str()));
        proof {
            assert(texts(lines@) =~= seq![dimmed(fitted(self.model().table.title(), w as nat))]);
        }
        let table = self.controls.table.view(w, h - 1);
        extend(&mut lines, table);
        join(&lines, "\n")
    }

    #[verifier::rlimit(60)]
    fn view_disk_screen(&mut self, w: usize, h: usize) -> (r: String)
        requires
            old(self).wf(),
            old(self).fits(),
            w <= old(self).width,
            12 <= h <= old(self).height,
        ensures
            final(self).wf(),
            r@ == old(self).disk_screen(w as nat, h as nat),
            final(self).model() == (ControlsModel {
                disktable: old(self).model().disktable.viewed(w as nat, old(self).disk_list(w as nat, h as nat)),
                ..old(self).model()
            }),
            *final(self) == (App { controls: final(self).controls, ..*old(self) }),
    {
        let mut rows = self.disk_rows_of(w, h);
        let help = self.view_disk_help(w);
        let n: usize = list_rows(h, total_height(&rows));
        let list = self.controls.disktable.view(w, n);
        extend(&mut rows, list);
        finish(rows, h, help)
    }

    #[verifier::rlimit(60)]
    fn view_net_screen(&mut self, w: usize, h: usize) -> (r: String)
        requires
            old(self).wf(),
            old(self).fits(),
            w <= old(self).width,
            12 <= h <= old(self).height,
        ensures
            final(self).wf(),
            r@ == old(self).net_screen(w as nat, h as nat),
            final(self).model() == if old(self).procnet.need_root {
                old(self).model()
            } else {
                ControlsModel {
                    nettable: old(self).model().nettable.viewed(w as nat, old(self).net_list(w as nat, h as nat)),
                    ..old(self).model()
                }
            },
            *final(self) == (App { controls: final(self).controls, ..*old(self) }),
    {
        broadcast use group_texts;

        let mut rows = self.net_rows_of(w, h);
        let help = self.view_net_help(w);
        if self.procnet.need_root {
            let mut body: Vec<String> = Vec::new();
            body.push(dim("per-connection bandwidth needs root — rerun with "));
            body.push(Style::new().fg(WHITE).bold().render("  sudo teatop"));
            proof {
                assert(texts(body@) =~= App::root_note());
            }
            extend(&mut rows, body);
        } else {
            let n: usize = list_rows(h, total_height(&rows));
            let list = self.controls.nettable.view(w, n);
            extend(&mut rows, list);
        }
        finish(rows, h, help)
    }

    #[verifier::rlimit(60)]
    fn view_main_screen(&mut self, w: usize, h: usize) -> (r: String)
        requires
            old(self).wf(),
            old(self).fits(),
            20 <= w <= old(self).width,
            12 <= h <= old(self).height,
        ensures
            final(self).wf(),
            r@ == old(self).main_screen(w as nat, h as nat),
            final(self).model() == ({
                let p = old(self).main_panes(w as nat, h as nat);
                ControlsModel {
                    table: if p.table > 0 {
                        old(self).model().table.viewed(w as nat, (p.table - 1) as nat)
                    } else {
                        old(self).model().table
                    },
                    table_top: old(self).table_line(w as nat, h as nat),
                    ..old(self).model()
                }
            }),
            *final(self) == (App { controls: final(self).controls, ..*old(self) }),
    {
        broadcast use group_texts;

        let gauges = self.view_gauges(w);
        let (chart_h, table_h) = self.pane_heights(w, h, gauges.len());
        let help = self.view_help(w);
        let mut rows = self.main_rows_of(w, gauges, chart_h, table_h);
        if table_h > 0 {
            let used: u128 = total_height(&rows);
            self.controls.table_top = screen_line(used);
            rows.push(self.view_table(w, table_h));
        } else {
            self.controls.table_top = 0;
        }
        finish(rows, h, help)
    }

    #[verifier::rlimit(60)]
    fn pane_heights(&self, w: usize, h: usize, gauges: usize) -> (r: (usize, usize))
        requires
            self.wf(),
            self.fits(),
            20 <= w <= self.width,
            12 <= h <= self.height,
            gauges == gauge_lines(self.gauges(), w as nat).len(),
        ensures
            r.0 == self.main_panes(w as nat, h as nat).chart,
            r.1 == self.main_panes(w as nat, h as nat).table,
            r.0 <= h,
    {
        let head: usize = if self.cfg.system {
            2
        } else {
            0
        };
        let room: usize = h - head - 1;
        let body: usize = if gauges == 0 {
            room
        } else if gauges >= room {
            0
        } else {
            room - gauges - 1
        };
        let charts = self.controls.show_history || self.controls.show_cores;
        let cores: Option<usize> = if self.controls.show_cores {
            Some(self.cores_panel_height(w))
        } else {
            None
        };
        share_body(h, body, charts, self.cfg.processes, cores)
    }

    /// Renders the screen.
    #[verifier::rlimit(60)]
    pub fn view(&mut self) -> (r: String)
        requires
            old(self).wf(),
            old(self).fits(),
        ensures
            final(self).wf(),
            r@ == old(self).screen(),
            final(self).model() == old(self).drawn(),
            *final(self) == (App { controls: final(self).controls, ..*old(self) }),
    {
        if self.width < 20 + 2 * PAD_X || self.height < 12 + 2 * PAD_Y {
            return "terminal too small for teatop".to_owned();
        }
        let w: usize = self.width - 2 * PAD_X;
        let h: usize = self.height - 2 * PAD_Y;
        if self.controls.show_net && self.cfg.system {
            return self.view_net_screen(w, h);
        }
        if self.controls.show_disks && self.cfg.disk {
            return self.view_disk_screen(w, h);
        }
        self.view_main_screen(w, h)
    }
}

/// The screen line two below `used` lines, as far as the machine can count.
fn screen_line(used: u128) -> (r: usize)
    ensures
        r == if PAD_Y + used + 2 > usize::MAX {
            usize::MAX as int
        } else {
            PAD_Y + used + 2
        },
{
    if used > usize::MAX as u128 - 3 {
        usize::MAX
    } else {
        used as usize + PAD_Y + 2
    }
}

/// The help line stands on the last line of the screen wherever what is above
/// it leaves room: a screen of `h` lines has the margin, `h - 1` lines and the
/// help.
pub proof fn lemma_screen_filled(rows: Seq<Seq<char>>, h: nat, help: Seq<char>)
    ensures
        newlines(finished(rows, h, help)) == PAD_Y + (if lines_of_all(rows) < h {
            h - 1
        } else {
            lines_of_all(rows) as int
        }) + line_count(help),
{
    let all = filled_up(rows, h);
    assert(all.push(help).drop_last() =~= all);
    let used = lines_of_all(rows);
    if used + 1 < h {
        let blank = tiled("\n"@, (h - used - 2) as nat);
        assert(rows.push(blank).drop_last() =~= rows);
        lemma_blank_lines((h - used - 2) as nat);
        assert(rows.push(blank).last() == blank);
        assert(lines_of_all(rows.push(blank)) == used + line_count(blank));
    }
    assert(all.push(help).last() == help);
    assert(lines_of_all(all.push(help)) == lines_of_all(all) + line_count(help));
    lemma_framed_lines(all.push(help));
}

proof fn lemma_blank_lines(n: nat)
    ensures
        newlines(tiled("\n"@, n)) == n,
    decreases n,
{
    if n > 0 {
        lemma_blank_lines((n - 1) as nat);
        reveal_strlit("\n");
        let one = "\n"@;
        assert(one =~= seq!['\n']);
        assert(seq!['\n'].drop_last() =~= seq![]);
        reveal_with_fuel(newlines, 2);
        lemma_newlines_join(tiled(one, (n - 1) as nat), one);
        lemma_newlines_join(one, tiled(one, (n - 1) as nat));
    }
}

/// Charts and table never take more than there is, once there is room for a
/// table of four lines.
pub proof fn lemma_panes_fit(h: nat, body: nat, charts: bool, table: bool, cores: Option<int>)
    requires
        body >= 5,
    ensures
        ({
            let p = panes(h, body, charts, table, cores);
            &&& p.chart + p.table + (if p.chart > 0 && p.table > 0 {
                1nat
            } else {
                0nat
            }) <= body
            &&& table ==> p.table >= 4
        }),
{
}

/// The list of a view gets the lines between what stands above it and the help
/// line, and three where there are fewer.
pub proof fn lemma_list_gets_the_rest(h: nat, used: nat)
    ensures
        h >= used + 4 ==> used + list_height(h, used) + 1 == h,
        h < used + 4 ==> list_height(h, used) == 3,
{
}

} // verus!
