//! What the collectors make of the machine's texts and counters.

use teatop::metrics::cpu::{compute_usage, parse_cpu_times, Cpu};
use teatop::metrics::disk::{
    fs_usage, is_storage, is_whole_device, mount_points, mounts, nodev_fstypes, parse_disk_counters, system_mount,
    unescape_mount, Disk, FsBlocks, Usage,
};
use teatop::metrics::gpu::{sample_window, DeviceUse, Gpu, MemUse, Probe, Reading, UtilSample};
use teatop::metrics::memory::Memory;
use teatop::metrics::netaddr::{ipv4, ipv6};
use teatop::metrics::network::{is_loopback, parse_net_counters, Counter, Network};
use teatop::metrics::procdisk::{parse_proc_io, proc_name, IoSample, ProcDisk};
use teatop::metrics::process::{command, MeasuredSample, ProcSample, Processes, Users};
use teatop::metrics::procnet::{
    build_diag_req, parse_diag_msg, parse_netlink, parse_nettop_conns, socket_inode, tcp_state_name, Owner, ProcNet,
    SockSample,
};
use teatop::metrics::system::System;
use teatop::metrics::counter_delta;
use teatop::num::Num;

const SECOND: u64 = 1_000_000_000;

fn num(x: f64) -> Num {
    Num { bits: x.to_bits() }
}

fn val(n: Num) -> f64 {
    f64::from_bits(n.bits)
}

#[test]
fn a_counter_that_falls_counts_as_no_change() {
    assert_eq!(counter_delta(10, 4), 6);
    assert_eq!(counter_delta(4, 10), 0);
}

#[test]
fn cpu_lines_are_read_without_the_guests_share() {
    let t = parse_cpu_times("cpu  100 10 50 800 10 1 2 3 20 4\ncpu0 1 2 3 4\ncpufreq 9\nintr 5\n").unwrap();
    assert_eq!(t.len(), 2);
    assert_eq!(val(t[0].user), 80.0);
    assert_eq!(val(t[0].nice), 6.0);
    assert_eq!(val(t[0].system), 50.0);
    assert_eq!(val(t[0].steal), 3.0);
    assert_eq!(val(t[1].idle), 4.0);
    assert_eq!(val(t[1].iowait), 0.0);
    assert_eq!(parse_cpu_times("intr 5\n").err(), Some("no cpu lines in /proc/stat".to_string()));
}

#[test]
fn cpu_usage_is_the_share_of_the_interval() {
    let a = parse_cpu_times("cpu 100 0 100 700 100 0 0 0\n").unwrap()[0];
    let b = parse_cpu_times("cpu 130 0 110 740 120 0 0 0\n").unwrap()[0];
    let u = compute_usage(a, b);
    assert_eq!(val(u.user), 30.0);
    assert_eq!(val(u.system), 10.0);
    assert_eq!(val(u.iowait), 20.0);
    assert_eq!(val(u.idle), 60.0);
    assert_eq!(val(u.total), 40.0);
    assert_eq!(val(compute_usage(b, b).total), 0.0);
    assert_eq!(val(compute_usage(b, a).total), 0.0);
}

#[test]
fn a_cpu_collector_follows_its_files() {
    let mut c = Cpu::new("cpu 0 0 0 100\ncpu0 0 0 0 50\ncpu1 0 0 0 50\n").unwrap();
    assert_eq!(c.count, 2);
    assert_eq!(val(c.aggregate().total), 0.0);
    c.update(
        "cpu 50 0 0 150\ncpu0 50 0 0 50\ncpu1 0 0 0 100\n",
        &vec![Some("2400000\n".to_string()), Some("oops".to_string())],
        &vec![None, Some("0".to_string()), Some("54500".to_string())],
    );
    assert_eq!(val(c.aggregate().total), 50.0);
    assert_eq!(val(c.core_usage(0).total), 100.0);
    assert_eq!(val(c.core_usage(1).total), 0.0);
    assert_eq!(val(c.core_usage(9).total), 0.0);
    assert_eq!(val(c.freq[0]), 2400.0);
    assert_eq!(val(c.freq[1]), 0.0);
    assert_eq!(val(c.temp), 54.5);
    c.update("nothing", &vec![], &vec![]);
    assert_eq!(val(c.temp), 54.5);
    assert!(Cpu::new("").is_err());

    let mut t = Cpu::for_totals(0);
    assert_eq!(t.count, 1);
    t.update_totals(num(12.5), &vec![num(3.0), num(22.0)]);
    assert_eq!(val(t.aggregate().total), 12.5);
    assert_eq!(val(t.core_usage(1).total), 22.0);
}

#[test]
fn memory_figures_come_from_their_lines() {
    let text = "MemTotal:  1000 kB\nMemFree: 200 kB\nMemAvailable: 500 kB\nBuffers: 50 kB\nCached: 150 kB\nSReclaimable: 50 kB\nShmem: 7 kB\nSwapTotal: 400 kB\nSwapFree: 300 kB\n";
    let m = Memory::new(text);
    assert_eq!(m.ram.total, 1_024_000);
    assert_eq!(m.ram.cached, 200 * 1024);
    assert_eq!(m.ram.used, 550 * 1024);
    assert_eq!(m.ram.available, 500 * 1024);
    assert_eq!(m.ram.shared, 7 * 1024);
    assert_eq!(val(m.ram.used_percent), (550 * 1024) as f64 / 1_024_000_f64 * 100.0);
    assert_eq!(val(m.ram.cache_percent), 25.0);
    assert!(m.has_swap());
    assert_eq!(m.swap.used, 100 * 1024);
    assert_eq!(val(m.swap.used_percent), 25.0);
    let old = Memory::new("MemTotal: 100 kB\nMemFree: 30 kB\nCached: 20 kB\n");
    assert_eq!(old.ram.available, 50 * 1024);
    assert!(!old.has_swap());
    assert_eq!(Memory::new("").ram.total, 0);
}

#[test]
fn disk_usage_is_taken_against_what_users_may_use() {
    let u = fs_usage(FsBlocks { fragment_size: 4096, block_size: 512, blocks: 100, free: 40, available: 20 });
    assert_eq!(u.total, 409_600);
    assert_eq!(u.used, 245_760);
    assert_eq!(val(u.used_percent), 75.0);
    let none = fs_usage(FsBlocks { fragment_size: 0, block_size: 512, blocks: 0, free: 0, available: 0 });
    assert_eq!(val(none.used_percent), 0.0);
}

#[test]
fn whole_devices_are_told_from_partitions() {
    for d in ["sda", "vdb", "xvdaa", "nvme0n1", "mmcblk0", "disk2"] {
        assert!(is_whole_device(d), "{}", d);
    }
    for p in ["sda1", "nvme0n1p2", "mmcblk0p1", "loop0", "dm-0", "sd", "nvme", "nvmen1", "disk"] {
        assert!(!is_whole_device(p), "{}", p);
    }
    let text = "8 0 sda 1 2 10 4 5 6 20 8\n8 1 sda1 1 2 99 4 5 6 99 8\n259 0 nvme0n1 1 2 3 4 5 6 x 8\n8 0 sdb 1\n";
    assert_eq!(parse_disk_counters(text), (13 * 512, 20 * 512));
}

#[test]
fn disk_rates_are_bytes_over_time() {
    let usage = Usage { total: 100, used: 50, used_percent: num(50.0) };
    let mut d = Disk::new(usage, 1000, 500, 0);
    d.update(None, 3000, 400, 2 * SECOND);
    assert_eq!(val(d.read_per_sec), 1000.0);
    assert_eq!(val(d.write_per_sec), 0.0);
    assert_eq!(d.used, 50);
    d.update(Some(Usage { total: 100, used: 60, used_percent: num(60.0) }), 3000, 900, 3 * SECOND);
    assert_eq!(val(d.read_per_sec), 0.0);
    assert_eq!(val(d.write_per_sec), 500.0);
    assert_eq!(d.used, 60);
}

#[test]
fn mounts_are_physical_unique_and_in_order() {
    assert_eq!(unescape_mount("/a\\040b\\134c"), "/a b\\c");
    assert_eq!(unescape_mount("x\\04"), "x\\04");
    assert_eq!(unescape_mount("x\\999"), "x\\999");
    assert_eq!(unescape_mount("x\\400"), "x\\400");
    assert_eq!(unescape_mount("x\\377"), "x\u{ff}");
    assert_eq!(unescape_mount("x\\+12"), "x\\+12");
    assert_eq!(unescape_mount("/mnt/\u{e9}t\u{e9}\\0402024"), "/mnt/\u{e9}t\u{e9} 2024");
    assert_eq!(unescape_mount("/mnt/\u{65e5}\u{672c}"), "/mnt/\u{65e5}\u{672c}");
    let nodev = nodev_fstypes("nodev\tsysfs\nnodev\tproc\n\text4\nnodev\n");
    assert_eq!(nodev, vec!["sysfs", "proc"]);
    let text = "/dev/sdb1 /z ext4 rw 0 0\nproc /proc proc rw 0 0\n/dev/loop0 /snap squashfs ro 0 0\n/dev/sda1 / ext4 rw 0 0\n/dev/sda1 /again ext4 rw 0 0\n/dev/sdc1 /empty ext4 rw\nshort line\n";
    let points = mount_points(text, &nodev);
    assert_eq!(points.len(), 4);
    let some = |used: u64| Some(Usage { total: 100, used, used_percent: num(used as f64) });
    let list = mounts(&points, &vec![some(5), some(7), some(9), None]);
    assert_eq!(list.len(), 2);
    assert_eq!((list[0].path.as_str(), list[0].used), ("/", 7));
    assert_eq!((list[1].path.as_str(), list[1].device.as_str()), ("/z", "/dev/sdb1"));

    assert!(system_mount("/System/Volumes/VM", "apfs"));
    assert!(system_mount("/dev", "devfs"));
    assert!(!system_mount("/", "apfs"));
    assert!(is_storage("/", "apfs"));
    assert!(!is_storage("/snap", "squashfs"));
}

#[test]
fn network_counters_skip_loopback() {
    assert!(is_loopback("lo") && is_loopback("lo0") && !is_loopback("lot"));
    let text = "Inter-| Receive\n face |bytes\n    lo: 1 0 0 0 0 0 0 0 1 0\n  eth0: 100 0 0 0 0 0 0 0 50 0\n wlan0: 7 x\n";
    let c = parse_net_counters(text);
    assert_eq!(c.len(), 1);
    assert_eq!((c[0].name.as_str(), c[0].rx, c[0].tx), ("eth0", 100, 50));
}

fn counter(name: &str, rx: u64, tx: u64) -> Counter {
    Counter { name: name.to_string(), rx, tx }
}

#[test]
fn network_rates_and_peaks() {
    let mut n = Network::new(vec![counter("b", 100, 0), counter("a", 0, 0)], 0);
    assert_eq!(n.ifaces.len(), 1);
    n.update(Some(vec![counter("b", 300, 50), counter("a", 10, 10)]), SECOND);
    assert_eq!(val(n.rx_per_sec), 210.0);
    assert_eq!(val(n.tx_per_sec), 60.0);
    assert_eq!((n.ifaces[0].name.as_str(), n.ifaces[1].name.as_str()), ("a", "b"));
    assert_eq!(val(n.ifaces[1].rx_per_sec), 200.0);
    n.update(None, 2 * SECOND);
    n.update(Some(vec![counter("b", 310, 50), counter("a", 10, 10)]), 2 * SECOND);
    assert_eq!(val(n.rx_per_sec), 10.0);
    assert_eq!(val(n.peak_rx), 210.0);
    assert_eq!(val(n.peak_tx), 60.0);
}

#[test]
fn load_uptime_and_addresses() {
    let mut s = System::new("192.168.1.2".to_string());
    s.update(Some("0.50 1.25 2.00 1/234 5678\n"), Some("3661.99 100.0\n"));
    assert_eq!((val(s.load1), val(s.load5), val(s.load15)), (0.5, 1.25, 2.0));
    assert_eq!(s.uptime_secs, 3661);
    s.update(None, Some("1 1"));
    assert_eq!(s.uptime_secs, 3661);
    s.update(Some("x"), None);
    assert_eq!(val(s.load1), 0.0);
    assert_eq!(s.uptime_secs, 3661);
    s.set_load(num(1.0), num(2.0), num(3.0), 9);
    assert_eq!((val(s.load15), s.uptime_secs), (3.0, 9));
    s.set_external_ip("<html>", false);
    assert_eq!(s.external_ip(), "");
    s.set_external_ip(" 1.2.3.4\n", true);
    assert_eq!(s.external_ip(), "1.2.3.4");
}

fn io(pid: i32, read: u64, write: u64) -> IoSample {
    IoSample { pid, name: format!("p{}", pid), read, write }
}

#[test]
fn process_io_rates_need_a_previous_sample() {
    assert_eq!(parse_proc_io("rchar: 9\nread_bytes: 4096\nwrite_bytes:  12 \n"), (4096, 12));
    assert_eq!(parse_proc_io("read_bytes: x\n"), (0, 0));
    assert_eq!(proc_name(Some(" bash\n")), "bash");
    assert_eq!(proc_name(None), "?");

    let mut d = ProcDisk::new(0);
    d.update(vec![io(1, 100, 0), io(2, 5, 5)], true, SECOND);
    assert!(d.procs.is_empty() && d.restricted);
    d.update(vec![io(1, 300, 10), io(2, 5, 5), io(3, 9, 9)], false, 3 * SECOND);
    assert_eq!(d.procs.len(), 1);
    assert_eq!((d.procs[0].pid, val(d.procs[0].read_per_sec), val(d.procs[0].write_per_sec)), (1, 100.0, 5.0));
    assert!(!d.restricted);
    d.reset();
    d.update(vec![io(2, 500, 5)], false, 4 * SECOND);
    assert_eq!(d.procs[0].pid, 1);
    d.update(vec![io(2, 600, 5)], false, 5 * SECOND);
    assert_eq!(d.procs[0].pid, 2);
}

fn proc_sample(pid: i32, utime: u64, pages: u64, cmd: &str) -> ProcSample {
    ProcSample { pid, ppid: 1, user: "me".to_string(), utime, stime: 0, pages, command: cmd.to_string() }
}

#[test]
fn process_usage_is_cpu_time_over_time() {
    let mut p = Processes::new(100, 4096, 0);
    p.update(&vec![proc_sample(10, 100, 2, "a"), proc_sample(11, 0, 1, "")], 8192 * 4, &vec![], SECOND);
    assert_eq!(p.list.len(), 1);
    assert_eq!(val(p.list[0].cpu_percent), 0.0);
    assert_eq!(val(p.list[0].mem_percent), 25.0);
    p.update(&vec![proc_sample(10, 250, 2, "a")], 0, &vec![], 2 * SECOND);
    assert_eq!(val(p.list[0].cpu_percent), 150.0);
    assert_eq!(val(p.list[0].mem_percent), 0.0);
    p.update(&vec![proc_sample(10, 10, 2, "a")], 0, &vec![], 3 * SECOND);
    assert_eq!(val(p.list[0].cpu_percent), 0.0);

    let m = MeasuredSample {
        pid: 7,
        ppid: 1,
        user: "?".to_string(),
        cpu_percent: num(33.0),
        rss: 1024,
        command: "[x]".to_string(),
    };
    p.update_measured(&vec![m], 2048, &vec![]);
    assert_eq!((p.list.len(), p.list[0].pid, val(p.list[0].cpu_percent)), (1, 7, 33.0));
    assert_eq!(val(p.list[0].mem_percent), 50.0);
}

#[test]
fn commands_fall_back_to_the_bracketed_name() {
    let args = vec!["ls".to_string(), "-l".to_string()];
    assert_eq!(command(Some(&args), "ls"), "ls -l");
    assert_eq!(command(Some(&vec!["".to_string(), " ".to_string()]), "kworker"), "[kworker]");
    assert_eq!(command(None, "kworker"), "[kworker]");
    assert_eq!(command(None, ""), "");
}

#[test]
fn user_names_are_remembered() {
    let mut u = Users::new();
    assert_eq!(u.find(0), None);
    assert_eq!(u.learn(0, Some("root".to_string())), "root");
    assert_eq!(u.learn(1000, None), "1000");
    assert_eq!(u.find(0), Some("root".to_string()));
    assert_eq!(u.find(1000), Some("1000".to_string()));
    assert_eq!(u.find(1), None);
}

#[test]
fn gpus_are_summed_up() {
    assert_eq!(Gpu::new(&Probe::NoLibrary("gone".to_string())).err, "NVML unavailable: gone");
    assert_eq!(Gpu::new(&Probe::NoCount("busy".to_string())).err, "cannot query GPU count: busy");
    assert_eq!(Gpu::new(&Probe::Devices(vec![])).err, "no NVIDIA GPU detected");
    assert_eq!(Gpu::new(&Probe::Devices(vec![None])).err, "no usable NVIDIA GPU");
    let mut g = Gpu::new(&Probe::Devices(vec![Some("A".to_string()), None, Some("B".to_string())]));
    assert!(g.available);
    assert_eq!((g.devices.len(), g.devices[1].index), (2, 2));
    let r = |util: u32, used: u64| Reading {
        gpu_util: Some(util),
        memory: Some((1000, used)),
        temperature: Some(40 + util),
        power_draw: Some(1500),
        power_limit: None,
    };
    g.update(&vec![r(10, 250), r(40, 750)]);
    let s = g.summary().unwrap();
    assert_eq!((s.count, val(s.gpu_util), s.max_temp, s.power_draw), (2, 25.0, 80, 3000));
    assert_eq!((s.mem_used, s.mem_total, val(s.mem_used_percent)), (1000, 2000, 50.0));
    assert!(Gpu::absent("none").summary().is_none());

    let dev = |samples: Vec<UtilSample>| DeviceUse { memory: vec![MemUse { pid: 9, bytes: 5 }, MemUse { pid: 9, bytes: 6 }], samples };
    let sample = |timestamp: u64, sm_util: u32| UtilSample { pid: 9, timestamp, sm_util };
    let stats = g.process_stats(&vec![dev(vec![sample(2, 30), sample(1, 99), sample(2, 50)]), dev(vec![sample(5, 7)])]);
    assert_eq!(stats.len(), 1);
    assert_eq!((stats[0].pid, stats[0].mem_used, stats[0].sm_util), (9, 22, 37));
    assert_eq!(sample_window(5_000_000), 3_000_000);
    assert_eq!(sample_window(1), 0);
}

#[test]
fn addresses_are_written_in_their_short_form() {
    assert_eq!(ipv4(140, 82, 121, 4), "140.82.121.4");
    let v6 = |g: [u16; 8]| {
        let mut o: Vec<u8> = Vec::new();
        for x in g {
            o.push((x >> 8) as u8);
            o.push((x & 255) as u8);
        }
        ipv6(&o)
    };
    assert_eq!(v6([0, 0, 0, 0, 0, 0, 0, 0]), "::");
    assert_eq!(v6([0, 0, 0, 0, 0, 0, 0, 1]), "::1");
    assert_eq!(v6([0x2001, 0xdb8, 0, 0, 1, 0, 0, 1]), "2001:db8::1:0:0:1");
    assert_eq!(v6([0x2001, 0xdb8, 0, 1, 1, 1, 1, 1]), "2001:db8:0:1:1:1:1:1");
    assert_eq!(v6([0xfe80, 0, 0, 0, 1, 2, 3, 4]), "fe80::1:2:3:4");
    assert_eq!(v6([1, 2, 3, 4, 5, 6, 0, 0]), "1:2:3:4:5:6::");
    assert_eq!(v6([0, 0, 0, 0, 0, 0xffff, 0xc000, 0x0201]), "::ffff:192.0.2.1");
}

fn diag_message(inode: u32, dport: u16, tx: u64, rx: u64) -> Vec<u8> {
    let mut d = vec![0u8; 72];
    d[1] = 1;
    d[6..8].copy_from_slice(&dport.to_be_bytes());
    d[24..28].copy_from_slice(&[10, 0, 0, 7]);
    d[68..72].copy_from_slice(&inode.to_le_bytes());
    let mut info = vec![0u8; 136];
    info[120..128].copy_from_slice(&tx.to_le_bytes());
    info[128..136].copy_from_slice(&rx.to_le_bytes());
    d.extend_from_slice(&140u16.to_le_bytes());
    d.extend_from_slice(&2u16.to_le_bytes());
    d.extend(info);
    d
}

#[test]
fn socket_dumps_are_read() {
    let req = build_diag_req(2, true);
    let mut want = vec![0u8; 72];
    want[0..4].copy_from_slice(&72u32.to_le_bytes());
    want[4..6].copy_from_slice(&20u16.to_le_bytes());
    want[6..8].copy_from_slice(&0x301u16.to_le_bytes());
    want[16] = 2;
    want[17] = 6;
    want[18] = 2;
    want[20..24].copy_from_slice(&[255; 4]);
    assert_eq!(req, want);

    let s = parse_diag_msg(2, &diag_message(77, 443, 1000, 2000), true).unwrap();
    assert_eq!((s.inode, s.tx, s.rx), (77, 1000, 2000));
    assert_eq!((s.remote.as_str(), s.state.as_str()), ("10.0.0.7:443", "ESTABLISHED"));
    assert!(parse_diag_msg(2, &diag_message(0, 443, 1, 1), true).is_none());
    assert_eq!(parse_diag_msg(2, &diag_message(5, 0, 1, 1), true).unwrap().remote, "");
    assert_eq!(parse_diag_msg(9, &diag_message(5, 1, 1, 1), true).unwrap().remote, "");
    assert_eq!(parse_diag_msg(10, &diag_message(5, 1, 1, 1), true).unwrap().remote, "[a00:7::]:1");

    let mut packet: Vec<u8> = Vec::new();
    for m in [diag_message(1, 80, 1, 2), diag_message(2, 81, 3, 4)] {
        packet.extend_from_slice(&((m.len() + 16) as u32).to_le_bytes());
        packet.extend_from_slice(&20u16.to_le_bytes());
        packet.extend_from_slice(&[0; 10]);
        packet.extend(m);
    }
    let mut out: Vec<SockSample> = Vec::new();
    assert!(!parse_netlink(&packet, 2, true, &mut out));
    assert_eq!((out.len(), out[1].inode, out[1].rx), (2, 2, 4));
    let mut done = 16u32.to_le_bytes().to_vec();
    done.extend_from_slice(&3u16.to_le_bytes());
    done.extend_from_slice(&[0; 10]);
    assert!(parse_netlink(&done, 2, true, &mut out));
    assert_eq!(out.len(), 2);

    assert_eq!(tcp_state_name(10), "LISTEN");
    assert_eq!(tcp_state_name(12), "");
    assert_eq!(socket_inode("socket:[12345]"), Some(12345));
    assert_eq!(socket_inode("pipe:[1]"), None);
    assert_eq!(socket_inode("socket:[x]"), None);
}

fn sock(inode: u32, rx: u64, tx: u64, remote: &str) -> SockSample {
    SockSample { inode, tx, rx, remote: remote.to_string(), state: "ESTABLISHED".to_string() }
}

#[test]
fn connections_show_once_they_carry_something() {
    let owners = vec![Owner { inode: 1, pid: 42, name: "ssh".to_string() }];
    let mut n = ProcNet::new(0);
    n.update(vec![sock(1, 0, 0, "a:1"), sock(2, 0, 0, "b:2")], &owners, SECOND);
    assert!(n.conns.is_empty());
    let next = vec![sock(1, 500, 100, "a:1"), sock(2, 9, 9, "b:2"), sock(3, 5, 5, "c:3")];
    assert!(n.needs_owners(&next, 2 * SECOND));
    n.update(next, &owners, 2 * SECOND);
    assert_eq!(n.conns.len(), 1);
    let c = &n.conns[0];
    assert_eq!((c.pid, c.name.as_str(), c.remote.as_str()), (42, "ssh", "a:1"));
    assert_eq!((val(c.rx_per_sec), val(c.tx_per_sec)), (500.0, 100.0));
    n.update_denied();
    assert!(n.need_root && n.conns.is_empty());
    n.reset();
    n.update(vec![], &owners, 3 * SECOND);
    assert!(!n.need_root);
}

#[test]
fn connection_reports_are_read() {
    let text = ",state,bytes_in,bytes_out,\nmDNS.responder.123,,5,6,\nudp4 *:5353<->*:*,,1,2,\ntcp4 10.0.0.1:5<->1.2.3.4:443,Established,10,20,\nbad row\nnot a process,,1,2,\ntcp4 a<->b:1,Established,1,1,\n";
    let c = parse_nettop_conns(text);
    assert_eq!(c.len(), 1);
    assert_eq!(c[0].key, "123 tcp4 10.0.0.1:5<->1.2.3.4:443");
    assert_eq!((c[0].pid, c[0].name.as_str(), c[0].remote.as_str()), (123, "mDNS.responder", "1.2.3.4:443"));
    assert_eq!((c[0].rx, c[0].tx, c[0].state.as_str()), (10, 20, "Established"));
    let mut n = ProcNet::new(0);
    n.update_report(parse_nettop_conns(text), SECOND);
    n.update_report(parse_nettop_conns(&text.replace(",10,20,", ",110,20,")), 2 * SECOND);
    assert_eq!((n.conns.len(), val(n.conns[0].rx_per_sec)), (1, 100.0));
}
