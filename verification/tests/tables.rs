//! The scrolling lists.

use teatop::metrics::procdisk::ProcIO;
use teatop::metrics::process::Process;
use teatop::metrics::procnet::ProcConn;
use teatop::num::Num;
use teatop::style::strip_ansi;
use teatop::ui::disktable::{DiskSort, DiskTable};
use teatop::ui::nettable::{NetSort, NetTable};
use teatop::ui::proctable::{ProcSort, ProcTable};

fn num(x: f64) -> Num {
    Num { bits: x.to_bits() }
}

fn proc(pid: i32, ppid: i32, user: &str, cpu: f64, rss: u64, cmd: &str) -> Process {
    Process {
        pid,
        ppid,
        user: user.to_string(),
        cpu_percent: num(cpu),
        mem_percent: num(1.5),
        rss,
        gpu_percent: num(0.0),
        gpu_mem: 0,
        command: cmd.to_string(),
    }
}

fn pids(t: &ProcTable) -> Vec<i32> {
    t.rows.iter().map(|r| r.pid).collect()
}

fn some_procs() -> Vec<Process> {
    vec![
        proc(30, 10, "me", 5.0, 100, "vim Notes"),
        proc(10, 1, "root", 1.0, 300, "bash"),
        proc(20, 10, "me", 50.0, 200, "cargo"),
        proc(21, 1, "root", 5.0, 50, "sshd"),
    ]
}

#[test]
fn processes_sort_by_any_column_ties_by_number() {
    let mut t = ProcTable::new();
    t.set_rows(&some_procs());
    assert_eq!(pids(&t), vec![20, 21, 30, 10]);
    t.asc = true;
    t.set_rows(&some_procs());
    assert_eq!(pids(&t), vec![10, 21, 30, 20]);
    t.asc = false;
    t.sort_by = ProcSort::Mem;
    t.set_rows(&some_procs());
    assert_eq!(pids(&t), vec![10, 20, 30, 21]);
    let mut all = some_procs();
    all[0].gpu_percent = num(9.0);
    all[3].gpu_mem = 7;
    t.sort_by = ProcSort::Gpu;
    t.set_rows(&all);
    assert_eq!(pids(&t), vec![30, 21, 10, 20]);
    assert_eq!(ProcSort::parse("mem"), ProcSort::Mem);
    assert_eq!(ProcSort::parse("bogus"), ProcSort::Cpu);
    assert_eq!(ProcSort::parse(ProcSort::Gpu.as_str()), ProcSort::Gpu);
}

#[test]
fn search_ignores_case_and_looks_at_users_and_numbers() {
    let mut t = ProcTable::new();
    t.search = "NOTES".to_string();
    t.set_rows(&some_procs());
    assert_eq!(pids(&t), vec![30]);
    t.search = "Root".to_string();
    t.set_rows(&some_procs());
    assert_eq!(pids(&t), vec![21, 10]);
    t.search = "2".to_string();
    t.set_rows(&some_procs());
    assert_eq!(pids(&t), vec![20, 21]);
    t.search = String::new();
    t.mine_only = true;
    t.mine_user = "me".to_string();
    t.set_rows(&some_procs());
    assert_eq!(pids(&t), vec![20, 30]);
}

#[test]
fn the_tree_lists_children_below_their_parents() {
    let mut t = ProcTable::new();
    t.tree = true;
    t.set_rows(&some_procs());
    assert_eq!(pids(&t), vec![21, 10, 20, 30]);
    assert_eq!(t.prefixes, Some(vec!["".to_string(), "".to_string(), "├─ ".to_string(), "└─ ".to_string()]));
    t.search = "me".to_string();
    t.set_rows(&some_procs());
    assert!(t.prefixes.is_none());
}

#[test]
fn the_tree_goes_depth_first_and_keeps_siblings_in_order() {
    let all = vec![
        proc(1, 0, "u", 1.0, 0, "init"),
        proc(2, 1, "u", 5.0, 0, "b"),
        proc(3, 1, "u", 9.0, 0, "a"),
        proc(4, 3, "u", 2.0, 0, "aa"),
        proc(5, 2, "u", 3.0, 0, "bb"),
        // Each the parent of the other: no way leads to the top.
        proc(6, 7, "u", 8.0, 0, "x"),
        proc(7, 6, "u", 8.0, 0, "y"),
    ];
    let mut t = ProcTable::new();
    t.tree = true;
    t.set_rows(&all);
    assert_eq!(pids(&t), vec![1, 3, 4, 2, 5]);
    let branches: Vec<String> = ["", "├─ ", "│  └─ ", "└─ ", "   └─ "].iter().map(|s| s.to_string()).collect();
    assert_eq!(t.prefixes, Some(branches));
}

#[test]
fn the_selection_stays_on_its_process() {
    let mut t = ProcTable::new();
    t.set_rows(&some_procs());
    t.move_by(2);
    assert_eq!(t.selected().unwrap().pid, 30);
    let mut all = some_procs();
    all[0].cpu_percent = num(99.0);
    t.set_rows(&all);
    assert_eq!(t.selected().unwrap().pid, 30);
    assert_eq!(pids(&t)[0], 30);
    all.remove(0);
    t.set_rows(&all);
    assert_eq!(t.selected().unwrap().pid, 20);
    t.end();
    t.set_rows(&vec![proc(1, 0, "x", 0.0, 0, "init")]);
    assert_eq!(t.selected().unwrap().pid, 1);
    t.set_rows(&vec![]);
    assert!(t.selected().is_none());
    t.move_by(1);
    assert!(t.selected().is_none());
}

#[test]
fn moving_stops_at_the_ends() {
    let many: Vec<Process> = (1..=30).map(|i| proc(i, 0, "u", 0.0, 0, "c")).collect();
    let mut t = ProcTable::new();
    t.set_rows(&many);
    t.move_by(-5);
    assert_eq!(t.selected().unwrap().pid, 1);
    t.view(40, 6);
    t.page(1);
    assert_eq!(t.selected().unwrap().pid, 6);
    t.page(-1);
    assert_eq!(t.selected().unwrap().pid, 1);
    t.end();
    assert_eq!(t.selected().unwrap().pid, 30);
    let lines = t.view(40, 6);
    assert_eq!(lines.len(), 6);
    assert!(strip_ansi(&lines[5]).trim_start().starts_with("30 "));
    t.home();
    assert_eq!(t.selected().unwrap().pid, 1);
    t.view(40, 6);
    assert!(t.select_visible(3));
    assert_eq!(t.selected().unwrap().pid, 4);
    assert!(!t.select_visible(5));
    assert!(!t.select_visible(-1));
}

#[test]
fn the_process_table_draws_its_columns() {
    let mut t = ProcTable::new();
    t.set_rows(&vec![proc(7, 1, "alice", 12.34, 2048, "run me"), proc(8, 1, "bob", 1.0, 512, "x")]);
    let lines = t.view(60, 3);
    let head = strip_ansi(&lines[0]);
    assert_eq!(head, format!("{:<60}", format!("{:>7} {:<8} {:>6} {:>6} {:>8} COMMAND", "PID", "USER", "CPU%▼", "MEM%", "RSS")));
    let row = format!("{:<60}", format!("{:>7} {:<8} {:>6} {:>6} {:>8} {}", 7, "alice", "12.3", "1.5", "2.0K", "run me"));
    assert_eq!(lines[1], format!("\x1b[1;37;100m{}\x1b[0m", row));
    assert!(strip_ansi(&lines[2]).starts_with("      8 bob         1.0    1.5     512B x"));
    assert!(lines[2].starts_with("\x1b[90m      8\x1b[0m \x1b[36mbob     \x1b[0m "));
    assert!(lines[0].contains("\x1b[1;30;46mCPU%▼\x1b[0m"));
    assert_eq!(t.sort_hit_at(17), None);
    assert_eq!(t.sort_hit_at(18), Some(ProcSort::Cpu));
    assert_eq!(t.sort_hit_at(22), Some(ProcSort::Cpu));
    assert_eq!(t.sort_hit_at(27), Some(ProcSort::Mem));
    assert_eq!(t.title(), "PROCESSES 2   sort: cpu");
    t.search = "a\"b".to_string();
    t.mine_only = true;
    t.mine_user = "bob".to_string();
    assert_eq!(t.title(), "PROCESSES 2   sort: cpu   user: bob   search: \"a\\\"b\"");
    t.show_gpu = true;
    let head = strip_ansi(&t.view(80, 2)[0]);
    assert!(head.contains(" GPU%     VRAM COMMAND"));
    assert!(t.view(0, 5).is_empty());
    assert!(t.view(5, 1).is_empty());
}

fn disk_io(pid: i32, name: &str, read: f64, write: f64) -> ProcIO {
    ProcIO { pid, name: name.to_string(), read_per_sec: num(read), write_per_sec: num(write) }
}

#[test]
fn the_disk_table_sorts_searches_and_draws() {
    let all = vec![disk_io(1, "Alpha", 10.0, 5.0), disk_io(2, "", 1.0, 99.0), disk_io(3, "gamma", 20.0, 0.0)];
    let mut t = DiskTable::new();
    t.set_rows(&all);
    let pids = |t: &DiskTable| t.rows.iter().map(|r| r.pid).collect::<Vec<_>>();
    assert_eq!(pids(&t), vec![2, 3, 1]);
    t.set_sort(DiskSort::Read);
    assert_eq!(pids(&t), vec![3, 1, 2]);
    assert_eq!(t.selected().unwrap().pid, 2);
    t.set_sort(DiskSort::Read);
    assert_eq!(pids(&t), vec![2, 1, 3]);
    t.set_sort(DiskSort::Write);
    assert_eq!(pids(&t), vec![2, 1, 3]);
    assert_eq!(t.sort_by.as_str(), "write");
    t.set_search("ALPHA", &all);
    assert_eq!((t.count(), pids(&t)), (1, vec![1]));
    t.set_search("", &all);
    let lines = t.view(60, 4);
    assert_eq!(strip_ansi(&lines[0]), format!("{:>7}  {:<25} {:>12} {:>12}", "PID", "PROCESS", "READ", "WRITE▼"));
    assert_eq!(strip_ansi(&lines[1]), format!("{:>7}  {:<25} {:>12} {:>12}", 2, "?", "1B/s", "99B/s"));
    t.end();
    assert_eq!(t.selected().unwrap().pid, 3);
    t.home();
    t.page(1);
    t.move_by(-1);
    assert_eq!(t.selected().unwrap().pid, 1);
}

fn conn(pid: i32, remote: &str, rx: f64, tx: f64) -> ProcConn {
    ProcConn {
        pid,
        name: format!("p{}", pid),
        remote: remote.to_string(),
        state: "ESTABLISHED".to_string(),
        rx_per_sec: num(rx),
        tx_per_sec: num(tx),
    }
}

#[test]
fn the_network_table_pins_its_connection() {
    let all = vec![conn(1, "a:1", 10.0, 5.0), conn(1, "B:2", 1.0, 99.0), conn(3, "c:3", 20.0, 0.0)];
    let mut t = NetTable::new();
    t.set_rows(&all);
    let remotes = |t: &NetTable| t.rows.iter().map(|r| r.remote.clone()).collect::<Vec<_>>();
    assert_eq!(remotes(&t), vec!["B:2", "c:3", "a:1"]);
    t.end();
    assert_eq!(t.selected().unwrap().remote, "a:1");
    t.set_sort(NetSort::Down);
    assert_eq!(remotes(&t), vec!["c:3", "a:1", "B:2"]);
    assert_eq!(t.selected().unwrap().remote, "a:1");
    let mut next: Vec<ProcConn> = all.iter().map(|c| c.copy()).collect();
    next[0].rx_per_sec = num(500.0);
    t.set_rows(&next);
    assert_eq!((t.selected().unwrap().remote.as_str(), t.sel_idx), ("a:1", 0));
    t.set_search("b:", &next);
    assert_eq!(remotes(&t), vec!["B:2"]);
    t.set_search("", &next);
    t.set_sort(NetSort::Up);
    assert_eq!(t.sort_by.as_str(), "up");
    let lines = t.view(70, 4);
    assert_eq!(
        strip_ansi(&lines[0]),
        format!("{:>7}  {:<16} {:<20} {:>11} {:>11}", "PID", "PROCESS", "REMOTE", "DOWN", "UP▼")
    );
    assert!(lines[0].contains("\x1b[1;30;46mUP▼\x1b[0m"));
    assert_eq!(
        strip_ansi(&lines[2]),
        format!("{:>7}  {:<16} {:<20} {:>11} {:>11}", 1, "p1", "a:1", "500B/s", "5B/s")
    );
    assert_eq!(t.count(), 3);
}

#[test]
fn a_vanished_selection_leaves_its_place_or_the_last() {
    let all = some_procs();
    let mut t = ProcTable::new();
    t.set_rows(&all);
    t.move_by(2);
    assert_eq!((t.selected().unwrap().pid, t.sel_idx, t.sel_pid), (30, 2, 30));
    let without: Vec<Process> = some_procs().into_iter().filter(|p| p.pid != 30).collect();
    t.set_rows(&without);
    assert_eq!((t.selected().unwrap().pid, t.sel_idx, t.sel_pid), (10, 2, 10));
    t.search = "cargo".to_string();
    t.set_rows(&all);
    assert_eq!((t.selected().unwrap().pid, t.sel_idx, t.sel_pid), (20, 0, 20));

    let io = vec![disk_io(1, "a", 30.0, 0.0), disk_io(2, "b", 20.0, 0.0), disk_io(3, "c", 10.0, 0.0)];
    let mut d = DiskTable::new();
    d.set_rows(&io);
    d.end();
    assert_eq!(d.selected().unwrap().pid, 3);
    d.set_search("c", &io);
    assert_eq!((d.selected().unwrap().pid, d.sel_idx), (3, 0));
    d.set_search("", &io);
    assert_eq!((d.selected().unwrap().pid, d.sel_idx), (3, 2));
    d.set_rows(&vec![disk_io(1, "a", 30.0, 0.0), disk_io(2, "b", 20.0, 0.0)]);
    assert_eq!((d.selected().unwrap().pid, d.sel_idx, d.sel_pid), (2, 1, 2));
    d.set_rows(&vec![]);
    assert!(d.selected().is_none());
    assert_eq!(d.count(), 0);

    let conns = vec![conn(1, "a:1", 30.0, 0.0), conn(1, "b:2", 20.0, 0.0), conn(11, "a:1", 10.0, 0.0)];
    let mut n = NetTable::new();
    n.set_rows(&conns);
    n.move_by(1);
    n.set_sort(NetSort::Down);
    assert_eq!(n.selected().unwrap().remote, "b:2");
    n.set_rows(&vec![conn(11, "a:1", 99.0, 0.0), conn(1, "b:2", 1.0, 0.0)]);
    assert_eq!((n.selected().unwrap().pid, n.selected().unwrap().remote.as_str(), n.sel_idx), (1, "b:2", 1));
    n.set_rows(&vec![conn(11, "a:1", 99.0, 0.0)]);
    assert_eq!((n.selected().unwrap().pid, n.sel_idx), (11, 0));
    n.set_search("nothing", &conns);
    assert!(n.selected().is_none());
    assert_eq!(n.count(), 0);
}

#[test]
fn a_search_or_the_user_filter_leaves_the_view_flat() {
    let mut t = ProcTable::new();
    t.tree = true;
    t.set_rows(&some_procs());
    assert!(t.prefixes.is_some());
    t.search = "A".to_string();
    t.set_rows(&some_procs());
    assert!(t.prefixes.is_none());
    t.search = String::new();
    t.mine_only = true;
    t.mine_user = "me".to_string();
    t.set_rows(&some_procs());
    assert!(t.prefixes.is_none());
    assert_eq!(pids(&t), vec![20, 30]);
}
