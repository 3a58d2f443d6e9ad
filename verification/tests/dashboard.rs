//! The dashboard as a whole: keys, the mouse, refreshes and screens.

use teatop::config::{Config, Hook, State};
use teatop::metrics::cpu::Cpu;
use teatop::metrics::disk::{Disk, Mount, Usage};
use teatop::metrics::gpu::{Gpu, Probe, Reading};
use teatop::metrics::memory::Memory;
use teatop::metrics::network::{Counter, Network};
use teatop::metrics::procdisk::IoSample;
use teatop::metrics::process::{ProcSample, Processes};
use teatop::metrics::procnet::{Owner, SockSample};
use teatop::metrics::system::System;
use teatop::num::Num;
use teatop::style::{strip_ansi, width};
use teatop::ui::input::{KillSignal, Request};
use teatop::ui::keys::{key_string, KeyCode, KeyEvent, MouseEvent, MouseEventKind};
use teatop::ui::proctable::ProcSort;
use teatop::ui::tick::{
    ConnReading, CpuReading, DiskReading, IoReading, MemoryReading, NetReading, ProcessReading, Sample, SystemReading,
};
use teatop::ui::App;

const SECOND: u64 = 1_000_000_000;

fn num(x: f64) -> Num {
    Num { bits: x.to_bits() }
}

const STAT: &str = "cpu 0 0 0 100\ncpu0 0 0 0 50\ncpu1 0 0 0 50\n";
const MEMINFO: &str = "MemTotal: 1000 kB\nMemFree: 500 kB\n";

fn sample_proc(pid: i32, ppid: i32, user: &str, utime: u64, cmd: &str) -> ProcSample {
    ProcSample { pid, ppid, user: user.to_string(), utime, stime: 0, pages: 1, command: cmd.to_string() }
}

fn procs() -> Vec<ProcSample> {
    vec![
        sample_proc(10, 1, "root", 0, "bash"),
        sample_proc(20, 10, "me", 0, "cargo build"),
        sample_proc(30, 10, "me", 0, "vim"),
    ]
}

fn usage() -> Usage {
    Usage { total: 1000, used: 250, used_percent: num(25.0) }
}

fn app_with(cfg: Config, gpu: Gpu) -> App {
    let mut p = Processes::new(100, 4096, 0);
    p.update(&procs(), 1_024_000, &vec![], SECOND);
    App::new(
        Cpu::new(STAT).unwrap(),
        Memory::new(MEMINFO),
        gpu,
        Network::new(vec![Counter { name: "eth0".to_string(), rx: 0, tx: 0 }], 0),
        System::new("10.0.0.5".to_string()),
        Disk::new(usage(), 0, 0, 0),
        p,
        cfg,
        false,
        1000,
        Some("me".to_string()),
        SECOND,
    )
}

fn app() -> App {
    app_with(Config::default(), Gpu::absent("none"))
}

fn sample() -> Sample {
    Sample {
        cpu: CpuReading::Files {
            stat: "cpu 50 0 0 150\ncpu0 50 0 0 50\ncpu1 0 0 0 100\n".to_string(),
            freqs: vec![Some("2000000".to_string()), Some("3000000".to_string())],
            temps: vec![Some("61000".to_string())],
        },
        memory: MemoryReading::Meminfo("MemTotal: 1000 kB\nMemFree: 250 kB\nSwapTotal: 100 kB\nSwapFree: 50 kB\n".to_string()),
        net: NetReading { counters: Some(vec![Counter { name: "eth0".to_string(), rx: 2048, tx: 10 }]), at: SECOND },
        system: SystemReading::Files { loadavg: Some("3.00 1.30 0.10 1/1 1".to_string()), uptime: Some("90.5 1".to_string()) },
        disk: DiskReading { usage: None, read: 4096, write: 512, at: SECOND },
        io: IoReading {
            mounts: vec![Mount {
                path: "/".to_string(),
                device: "/dev/sda".to_string(),
                total: 2048,
                used: 1024,
                used_percent: num(50.0),
            }],
            samples: vec![IoSample { pid: 20, name: "cargo".to_string(), read: 1000, write: 0 }],
            restricted: true,
            at: SECOND,
        },
        conns: ConnReading::Sockets {
            socks: vec![SockSample {
                inode: 5,
                tx: 100,
                rx: 200,
                remote: "1.2.3.4:443".to_string(),
                state: "ESTABLISHED".to_string(),
            }],
            owners: vec![Owner { inode: 5, pid: 20, name: "cargo".to_string() }],
            at: SECOND,
        },
        gpu: vec![],
        gpu_use: vec![],
        procs: ProcessReading::Ticks {
            samples: vec![sample_proc(20, 10, "me", 100, "cargo build"), sample_proc(30, 10, "me", 0, "vim")],
            at: 2 * SECOND,
        },
    }
}

fn press(a: &mut App, c: char) -> Request {
    a.handle_key(KeyEvent { code: KeyCode::Char(c), ctrl: false, alt: false })
}

fn key(a: &mut App, code: KeyCode) -> Request {
    a.handle_key(KeyEvent { code, ctrl: false, alt: false })
}

fn selected(a: &App) -> i32 {
    a.controls.table.selected().unwrap().pid
}

#[test]
fn keys_have_names() {
    let name = |code: KeyCode, ctrl: bool| key_string(&KeyEvent { code, ctrl, alt: false });
    assert_eq!(name(KeyCode::Char('C'), true), "ctrl+c");
    assert_eq!(name(KeyCode::Char('é'), false), "é");
    assert_eq!(name(KeyCode::PageDown, false), "pgdown");
    assert_eq!(name(KeyCode::F(9), false), "f9");
    assert_eq!(name(KeyCode::Other, false), "");
}

#[test]
fn toggles_and_quitting() {
    let mut a = app();
    assert!(a.controls.show_history && !a.controls.show_cores);
    press(&mut a, 'c');
    press(&mut a, 'H');
    press(&mut a, ' ');
    assert!(a.controls.show_cores && !a.controls.show_history && a.controls.paused);
    assert!(!a.should_quit());
    press(&mut a, 'q');
    assert!(a.should_quit());
    let mut b = app();
    press(&mut b, 'x');
    b.handle_key(KeyEvent { code: KeyCode::Char('c'), ctrl: true, alt: false });
    assert!(b.should_quit());
}

#[test]
fn the_interval_steps_within_its_range() {
    let mut a = app();
    press(&mut a, '+');
    assert_eq!(a.interval_ms(), 1100);
    for _ in 0..20 {
        press(&mut a, '-');
    }
    assert_eq!(a.interval_ms(), 100);
    for _ in 0..60 {
        press(&mut a, '=');
    }
    assert_eq!(a.interval_ms(), 5000);
}

#[test]
fn sorting_again_reverses() {
    let mut a = app();
    press(&mut a, 'm');
    assert_eq!((a.controls.table.sort_by, a.controls.table.asc), (ProcSort::Mem, false));
    press(&mut a, 'm');
    assert!(a.controls.table.asc);
    press(&mut a, 'g');
    assert_eq!(a.controls.table.sort_by, ProcSort::Mem);
    key(&mut a, KeyCode::End);
    assert_eq!(selected(&a), 30);
    press(&mut a, 'p');
    assert_eq!((a.controls.table.sort_by, a.controls.table.asc, selected(&a)), (ProcSort::Cpu, false, 10));
}

#[test]
fn the_kill_prompt_is_modal() {
    let mut a = app();
    press(&mut a, 'j');
    assert_eq!(selected(&a), 20);
    assert_eq!(press(&mut a, 'x'), Request::Nothing);
    assert_eq!((a.controls.kill_pid, a.controls.kill_name.as_str()), (20, "cargo build"));
    assert_eq!(press(&mut a, 'q'), Request::Nothing);
    assert!(!a.should_quit());
    key(&mut a, KeyCode::Down);
    assert_eq!(selected(&a), 20);
    assert_eq!(press(&mut a, 't'), Request::Kill { pid: 20, signal: KillSignal::Term });
    a.killed(KillSignal::Term, Ok(()));
    assert_eq!((a.controls.kill_pid, a.controls.status.as_str()), (0, "sent SIGTERM to PID 20"));
    assert_eq!(a.controls.status_ttl, 5);
    key(&mut a, KeyCode::F(9));
    assert_eq!(press(&mut a, 'K'), Request::Kill { pid: 20, signal: KillSignal::Kill });
    a.killed(KillSignal::Kill, Err("EPERM".to_string()));
    assert_eq!(a.controls.status, "kill 20 failed: EPERM");
    press(&mut a, 'X');
    key(&mut a, KeyCode::Esc);
    assert_eq!(a.controls.kill_pid, 0);
}

#[test]
fn searching_narrows_as_it_is_typed() {
    let mut a = app();
    press(&mut a, '/');
    for c in "vIm".chars() {
        press(&mut a, c);
    }
    assert_eq!((a.controls.table.search.as_str(), a.controls.table.rows.len()), ("vIm", 1));
    key(&mut a, KeyCode::Backspace);
    assert_eq!(a.controls.table.search, "vI");
    key(&mut a, KeyCode::Enter);
    assert!(!a.controls.searching);
    assert_eq!(a.controls.table.rows.len(), 1);
    key(&mut a, KeyCode::Esc);
    assert_eq!((a.controls.table.search.as_str(), a.controls.table.rows.len()), ("", 3));
    press(&mut a, '/');
    press(&mut a, 'q');
    assert!(!a.should_quit());
    key(&mut a, KeyCode::Esc);
    assert!(!a.controls.searching && a.controls.table.search.is_empty());
    press(&mut a, '/');
    key(&mut a, KeyCode::Backspace);
    key(&mut a, KeyCode::Down);
    assert_eq!(selected(&a), 20);
}

#[test]
fn filters_and_the_tree() {
    let mut a = app();
    press(&mut a, 'u');
    assert_eq!(a.controls.table.rows.len(), 2);
    press(&mut a, 'u');
    press(&mut a, 't');
    assert!(a.controls.table.prefixes.is_some());
    assert_eq!(a.controls.table.title(), "PROCESSES 3   sort: cpu   tree");
}

#[test]
fn one_view_at_a_time() {
    let mut a = app();
    assert_eq!(press(&mut a, 'd'), Request::ScanDisks);
    a.disks_scanned(sample().io);
    assert!(a.controls.show_disks);
    assert_eq!(press(&mut a, 'n'), Request::ScanNet);
    assert!(a.controls.show_net && !a.controls.show_disks);
    a.net_scanned(sample().conns);
    press(&mut a, 'd');
    assert!(a.controls.show_net && a.controls.nettable.sort_by.as_str() == "down");
    press(&mut a, '/');
    press(&mut a, 'z');
    key(&mut a, KeyCode::Enter);
    key(&mut a, KeyCode::Esc);
    assert!(a.controls.show_net && a.controls.nettable.search.is_empty());
    key(&mut a, KeyCode::Esc);
    assert!(!a.controls.show_net);
    let mut cfg = Config::default();
    cfg.disk = false;
    cfg.system = false;
    let mut b = app_with(cfg, Gpu::absent("none"));
    assert_eq!(press(&mut b, 'd'), Request::Nothing);
    assert_eq!(press(&mut b, 'n'), Request::Nothing);
    assert!(!b.controls.show_disks && !b.controls.show_net);
}

#[test]
fn views_keep_their_own_selection_and_kill() {
    let mut a = app();
    press(&mut a, 'n');
    a.net_scanned(sample().conns);
    let mut next = sample();
    next.conns = ConnReading::Sockets {
        socks: vec![SockSample {
            inode: 5,
            tx: 1100,
            rx: 200,
            remote: "1.2.3.4:443".to_string(),
            state: "ESTABLISHED".to_string(),
        }],
        owners: vec![Owner { inode: 5, pid: 20, name: "cargo".to_string() }],
        at: 2 * SECOND,
    };
    a.tick(next, 2 * SECOND);
    assert_eq!(a.controls.nettable.rows.len(), 1);
    press(&mut a, 'x');
    assert_eq!((a.controls.kill_pid, a.controls.kill_name.as_str()), (20, "cargo"));
    key(&mut a, KeyCode::Esc);
    press(&mut a, 'q');
    assert!(a.should_quit());

    let mut b = app();
    press(&mut b, 'd');
    b.disks_scanned(sample().io);
    let mut next = sample();
    next.io.samples[0].read = 3000;
    next.io.at = 2 * SECOND;
    b.tick(next, 2 * SECOND);
    assert_eq!((b.controls.disktable.rows.len(), b.mounts.len()), (1, 1));
    press(&mut b, 'w');
    press(&mut b, 'j');
    key(&mut b, KeyCode::F(9));
    assert_eq!(b.controls.kill_pid, 20);
}

#[test]
fn the_mouse_selects_sorts_and_scrolls() {
    let mut a = app();
    a.set_size(100, 40);
    a.view();
    let top = a.controls.table_top as u16;
    assert!(top > 0);
    let click = |row: u16, column: u16| MouseEvent { kind: MouseEventKind::LeftDown, row, column };
    a.handle_mouse(click(top + 2, 5));
    assert_eq!(selected(&a), 30);
    a.handle_mouse(click(top + 9, 5));
    assert_eq!(selected(&a), 30);
    a.handle_mouse(click(top - 1, 2 + 27));
    assert_eq!((a.controls.table.sort_by, selected(&a)), (ProcSort::Mem, 10));
    a.handle_mouse(MouseEvent { kind: MouseEventKind::ScrollDown, row: 0, column: 0 });
    assert_eq!(selected(&a), 30);
    a.handle_mouse(MouseEvent { kind: MouseEventKind::ScrollUp, row: 0, column: 0 });
    assert_eq!(selected(&a), 10);
    a.handle_mouse(MouseEvent { kind: MouseEventKind::Other, row: top, column: 0 });
    assert_eq!(selected(&a), 10);
}

#[test]
fn preferences_survive_a_restart() {
    let mut a = app();
    press(&mut a, 'm');
    press(&mut a, 'm');
    press(&mut a, 't');
    press(&mut a, 'h');
    press(&mut a, '+');
    let s: State = a.state();
    assert_eq!((s.sort.as_str(), s.sort_asc, s.tree, s.mine, s.cores, s.history, s.interval), ("mem", true, true, false, false, false, 1100));
    let mut b = app();
    b.apply_state(&s);
    let t = b.state();
    assert_eq!((t.sort.as_str(), t.sort_asc, t.tree, t.history), ("mem", true, true, false));
}

#[test]
fn a_refresh_takes_everything_in() {
    let mut a = app();
    let fired = a.tick(sample(), 2 * SECOND);
    assert!(fired.is_empty());
    assert_eq!(f64::from_bits(a.cpu.aggregate().total.bits), 50.0);
    assert_eq!(f64::from_bits(a.cpu.temp.bits), 61.0);
    assert_eq!(a.mem.ram.used, 750 * 1024);
    assert_eq!(f64::from_bits(a.net.rx_per_sec.bits), 2048.0);
    assert_eq!(f64::from_bits(a.disk.read_per_sec.bits), 4096.0);
    assert_eq!(a.sys.uptime_secs, 90);
    assert_eq!((a.procs.list.len(), selected(&a)), (2, 20));
    assert_eq!(f64::from_bits(a.procs.list[0].cpu_percent.bits), 100.0);
    assert_eq!((a.cpu_hist.len(), a.gpu_hist.len()), (2, 0));
    assert!(a.mounts.is_empty());
    press(&mut a, ' ');
    a.tick(sample(), 3 * SECOND);
    assert_eq!(a.cpu_hist.len(), 2);
}

#[test]
fn hooks_speak_in_the_status_line() {
    let mut cfg = Config::default();
    cfg.hooks = vec![Hook {
        metric: "cpu".to_string(),
        above: Some(num(40.0)),
        below: None,
        run: "true".to_string(),
        cooldown: String::new(),
        hold_for: String::new(),
        on_recover: String::new(),
    }];
    let mut a = app_with(cfg, Gpu::absent("none"));
    let fired = a.tick(sample(), 2 * SECOND);
    assert_eq!(fired.len(), 1);
    a.report_error("hook cpu: no sh".to_string());
    a.announce(&fired);
    assert_eq!(a.controls.status, "hook cpu > 40 fired (50); hook cpu: no sh");
    for _ in 0..4 {
        let f = a.tick(sample(), 2 * SECOND);
        a.announce(&f);
    }
    assert!(!a.controls.status.is_empty());
    let f = a.tick(sample(), 2 * SECOND);
    a.announce(&f);
    assert_eq!((a.controls.status.as_str(), a.controls.status_ttl), ("", 0));
}

fn screen(a: &mut App, w: usize, h: usize) -> Vec<String> {
    a.set_size(w, h);
    let frame = a.view();
    assert!(frame.ends_with('\n'));
    frame.split('\n').map(strip_ansi).collect()
}

#[test]
fn a_small_terminal_says_so() {
    let mut a = app();
    a.set_size(23, 40);
    assert_eq!(a.view(), "terminal too small for teatop");
    a.set_size(24, 13);
    assert_eq!(a.view(), "terminal too small for teatop");
    a.set_size(24, 14);
    assert!(a.view().contains("PROCESSES"));
}

#[test]
fn the_main_screen_fills_the_terminal() {
    let mut a = app();
    a.tick(sample(), 2 * SECOND);
    for cores in [false, true] {
        a.controls.show_cores = cores;
        let s = screen(&mut a, 120, 40);
        // A margin above, 38 lines, and what follows the last newline.
        assert_eq!(s.len(), 40);
        assert_eq!(s[0], "");
        assert!(s[1].starts_with("  load 3.00 1.30 0.10   up 00:01:30"));
        assert!(s[3].starts_with("  CPU  ["));
        // 29 cells are left for the detail.
        assert!(s[3].contains(" 50.0%  2.5GHz 61°C  usr 50 sys 0 iow   MEM  ["));
        assert!(s[38].contains("q quit "));
        assert!(screen(&mut a, 160, 40)[38].ends_with("R 4.0K/s W 512B/s"));
        screen(&mut a, 120, 40);
        let title = s.iter().position(|l| l.starts_with("  PROCESSES 2   sort: cpu")).unwrap();
        assert_eq!(a.controls.table_top, title + 2);
        assert!(s[title + 2].contains("cargo build"));
        assert!(s.iter().any(|l| l.contains("HISTORY   cpu 50%  mem 75%  0-100%")));
        assert_eq!(s.iter().any(|l| l.contains("CORES")), cores);
        for l in &s[1..38] {
            assert!(width(l) <= 120, "{}", l);
        }
    }
    let mut cfg = Config::default();
    cfg.processes = false;
    cfg.history = false;
    cfg.system = false;
    let mut b = app_with(cfg, Gpu::absent("none"));
    let s = screen(&mut b, 60, 20);
    assert_eq!(s.len(), 20);
    assert!(s[1].starts_with("  CPU  ["));
    assert_eq!(b.controls.table_top, 0);
}

#[test]
fn gpus_get_their_gauges_and_columns() {
    let gpu = Gpu::new(&Probe::Devices(vec![Some("A".to_string()), Some("B".to_string())]));
    let mut a = app_with(Config::default(), gpu);
    let mut s = sample();
    let r = || Reading {
        gpu_util: Some(30),
        memory: Some((2048, 1024)),
        temperature: Some(70),
        power_draw: Some(2500),
        power_limit: None,
    };
    s.gpu = vec![r(), r()];
    a.tick(s, 2 * SECOND);
    let lines = screen(&mut a, 120, 40);
    assert!(lines.iter().any(|l| l.contains("70°C 5W ×2")));
    assert!(lines.iter().any(|l| l.contains("2.0K / 4.0K") && l.contains("VRAM")));
    assert!(lines.iter().any(|l| l.contains("gpu 30%")));
    assert!(lines[38].contains("p/m/g sort"));
    press(&mut a, 'g');
    assert_eq!(a.controls.table.sort_by, ProcSort::Gpu);
}

#[test]
fn the_disk_screen() {
    let mut a = app();
    press(&mut a, 'd');
    a.disks_scanned(sample().io);
    let s = screen(&mut a, 100, 36);
    assert_eq!(s.len(), 36);
    assert!(s[3].starts_with("  DISK   0 procs   sort: total   · sudo for all procs"));
    assert!(s[4].starts_with("  /  [▐▐▐▐▐▐▐▐▐▐░░░░░░░░░░]  50.0%      1.0K / 2.0K"));
    assert!(s[6].starts_with("  R/W THROUGHPUT   R 0B/s  W 0B/s   peak 1B/s"));
    assert!(s[34].starts_with("  ↑↓ select  r/w/t sort  / search  x kill "));
    let mut b = app();
    press(&mut b, 'd');
    let s = screen(&mut b, 100, 36);
    assert!(s[4].starts_with("  no filesystems found"));
}

#[test]
fn the_network_screen() {
    let mut a = app();
    press(&mut a, 'n');
    a.net_scanned(ConnReading::Denied);
    let s = screen(&mut a, 100, 36);
    assert!(s[3].starts_with("  NETWORK   0 conns   sort: total"));
    assert!(s[4].starts_with("  lan 10.0.0.5"));
    assert!(s.iter().any(|l| l.contains("sudo teatop")));
    a.sys.set_external_ip("8.8.8.8", true);
    a.net_scanned(sample().conns);
    a.controls.paused = true;
    let s = screen(&mut a, 100, 36);
    assert!(s[4].starts_with("  lan 10.0.0.5   wan 8.8.8.8"));
    assert!(s[34].starts_with("   PAUSED  ↑↓ select  d/u/t sort "));
    press(&mut a, '/');
    press(&mut a, 'a');
    assert!(screen(&mut a, 100, 36)[34].starts_with("  search: a█   Enter = keep filter   Esc = clear"));
}

#[test]
fn the_kill_prompt_names_its_process() {
    let mut a = app();
    press(&mut a, 'x');
    let s = screen(&mut a, 100, 30);
    assert!(s[28].starts_with("  Kill PID 10 (bash)?   t = SIGTERM   k = SIGKILL   Esc = cancel"));
}
