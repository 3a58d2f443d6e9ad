//! The configuration file's rules and the hooks they set up.

use teatop::config::{
    self, canonical_metric, is_blank, load, load_default, Config, ErrorKindTag, Hook, LoadError, Source,
};
use teatop::hooks::{command_failure, spawn_failure, Engine, Values};
use teatop::num::Num;

fn num(x: f64) -> Num {
    Num { bits: x.to_bits() }
}

fn hook(metric: &str, above: Option<f64>, below: Option<f64>) -> Hook {
    Hook {
        metric: metric.to_string(),
        above: above.map(num),
        below: below.map(num),
        run: "notify".to_string(),
        cooldown: String::new(),
        hold_for: String::new(),
        on_recover: String::new(),
    }
}

fn values(cpu: f64) -> Values {
    Values { cpu: num(cpu), mem: num(0.0), disk: num(0.0), cpu_temp: None, swap: None, gpu: None, gpu_mem: None }
}

const SECOND: u64 = 1_000_000_000;

#[test]
fn durations_written_one_behind_the_other_add_up() {
    let nanos = |s: &str| config::parse_duration(s).unwrap().as_nanos();
    let all = ["1h", "1.5m", "250ms", "90s", ".5s", "40ns", "250µs", "1h30m15s"];
    for a in all {
        for b in all {
            assert_eq!(nanos(&format!("{}{}", a, b)), nanos(a) + nanos(b), "{}{}", a, b);
        }
    }
}

#[test]
fn durations_take_fractions_and_every_unit() {
    let nanos = |s: &str| config::parse_duration(s).map(|d| d.as_nanos());
    assert_eq!(nanos("1.5h"), Some(5_400_000_000_000));
    assert_eq!(nanos("1h30m15s"), Some(5_415_000_000_000));
    assert_eq!(nanos(" 2m "), Some(120_000_000_000));
    assert_eq!(nanos("250us"), Some(250_000));
    assert_eq!(nanos("250µs"), Some(250_000));
    assert_eq!(nanos("40ns"), Some(40));
    assert_eq!(nanos("0s"), Some(0));
    assert_eq!(nanos("1.2.3s"), None);
    assert_eq!(nanos(".s"), None);
    assert_eq!(nanos("5d"), None);
    assert_eq!(nanos("s"), None);
    assert_eq!(nanos("-5s"), None);
    assert_eq!(nanos("5s6"), None);
    assert_eq!(nanos("99999999999999999999h"), None);
}

#[test]
fn metric_names_lose_case_and_dashes() {
    assert_eq!(canonical_metric("CPU-Temp"), Some("cpu_temp"));
    assert_eq!(canonical_metric("Memory"), Some("mem"));
    assert_eq!(canonical_metric("gpuMEM"), Some("gpu_mem"));
    assert_eq!(canonical_metric("swap"), Some("swap"));
    assert_eq!(canonical_metric("disk"), Some("disk"));
    assert_eq!(canonical_metric("gpu"), Some("gpu"));
    assert_eq!(canonical_metric("load"), None);
}

#[test]
fn a_valid_hook_gets_its_canonical_metric() {
    let mut h = hook(" GPU-Mem ", None, Some(10.0));
    h.cooldown = "10m".to_string();
    h.hold_for = "30s".to_string();
    assert_eq!(h.validate(), Ok(()));
    assert_eq!(h.metric, "gpu_mem");
    let (t, above) = h.condition();
    assert_eq!(f64::from_bits(t.bits), 10.0);
    assert!(!above);
    assert_eq!(h.cooldown_duration().secs, 600);
    assert_eq!(h.for_duration().secs, 30);
    assert_eq!(hook("cpu", Some(1.0), None).cooldown_duration().as_nanos(), 0);
}

#[test]
fn invalid_hooks_say_why() {
    let mut h = hook("lo\"ad", Some(1.0), None);
    assert_eq!(
        h.validate(),
        Err("unknown metric \"lo\\\"ad\" (use cpu, cpu_temp, mem, swap, disk, gpu or gpu_mem)".to_string())
    );
    let mut both = hook("cpu", Some(1.0), Some(2.0));
    assert_eq!(both.validate(), Err("set exactly one of above or below".to_string()));
    let mut neither = hook("cpu", None, None);
    assert_eq!(neither.validate(), Err("set exactly one of above or below".to_string()));
    let mut idle = hook("cpu", Some(1.0), None);
    idle.run = "  ".to_string();
    assert_eq!(idle.validate(), Err("run must be a shell command".to_string()));
    let mut soon = hook("cpu", Some(1.0), None);
    soon.cooldown = "soon".to_string();
    assert_eq!(soon.validate(), Err("invalid cooldown: \"soon\"".to_string()));
    let mut held = hook("cpu", Some(1.0), None);
    held.hold_for = "5".to_string();
    assert_eq!(held.validate(), Err("invalid for: \"5\"".to_string()));
}

#[test]
fn loading_distinguishes_what_went_wrong() {
    let gone = load("/c.yaml", Source::Unread("No such file".to_string(), true)).err().unwrap();
    assert_eq!(gone.msg, "/c.yaml: No such file");
    assert!(gone.kind == ErrorKindTag::NotFound);
    let denied = load("/c.yaml", Source::Unread("denied".to_string(), false)).err().unwrap();
    assert!(denied.kind == ErrorKindTag::Other);
    let broken = load("/c.yaml", Source::Unparsed("bad key".to_string())).err().unwrap();
    assert_eq!(broken.msg, "/c.yaml: bad key");
    assert!(broken.kind == ErrorKindTag::Other);

    assert!(is_blank(" \n\t\n"));
    assert!(!is_blank("cpu: true"));
    let blank = load("/c.yaml", Source::Blank).ok().unwrap();
    assert!(blank.cpu && blank.system && !blank.cores && blank.hooks.is_empty());

    let mut cfg = Config::default();
    cfg.gpu = false;
    cfg.hooks = vec![hook("MEM", Some(85.0), None), hook("cpu", None, None)];
    let bad = load("/c.yaml", Source::Parsed(cfg)).err().unwrap();
    assert_eq!(bad.msg, "/c.yaml: hooks[1]: set exactly one of above or below");

    let mut cfg = Config::default();
    cfg.gpu = false;
    cfg.hooks = vec![hook("Memory", Some(85.0), None)];
    let good = load("/c.yaml", Source::Parsed(cfg)).ok().unwrap();
    assert!(!good.gpu && good.cpu);
    assert_eq!(good.hooks[0].metric, "mem");
}

#[test]
fn a_missing_default_file_is_written_and_changes_nothing() {
    let none = load_default(None);
    assert!(!none.write_default && none.config.is_ok());
    let gone = load_default(Some(Err(LoadError { msg: "x".to_string(), kind: ErrorKindTag::NotFound })));
    assert!(gone.write_default && gone.config.unwrap().history);
    let other = load_default(Some(Err(LoadError { msg: "y".to_string(), kind: ErrorKindTag::Other })));
    assert!(!other.write_default);
    assert_eq!(other.config.err(), Some("y".to_string()));
    let mut cfg = Config::default();
    cfg.disk = false;
    let fine = load_default(Some(Ok(cfg)));
    assert!(!fine.config.unwrap().disk && !fine.write_default);
}

#[test]
fn the_config_directory_follows_the_environment() {
    assert_eq!(config::path(Some("/x"), Some("/h")), Some("/x/teatop/config.yaml".to_string()));
    assert_eq!(config::path(Some(""), Some("/h")), Some("/h/.config/teatop/config.yaml".to_string()));
    assert_eq!(config::state_path(None, Some("/h")), Some("/h/.config/teatop/state.yaml".to_string()));
    assert_eq!(config::path(None, None), None);
}

#[test]
fn a_hook_fires_on_the_edge_only() {
    let mut e = Engine::new(&vec![hook("cpu", Some(80.0), None)]);
    assert!(e.check(&values(80.0), 0).is_empty());
    let f = e.check(&values(92.4), SECOND);
    assert_eq!(f.len(), 1);
    assert_eq!(f[0].note, "hook cpu > 80 fired (92)");
    assert_eq!(f[0].command, "notify");
    assert_eq!(f[0].metric, "cpu");
    assert_eq!(f[0].value, "92.4");
    assert_eq!(f[0].threshold, "80.0");
    assert!(e.check(&values(95.0), 2 * SECOND).is_empty());
    assert!(e.check(&values(10.0), 3 * SECOND).is_empty());
    assert_eq!(e.check(&values(81.0), 4 * SECOND).len(), 1);
}

#[test]
fn a_hook_fires_again_after_its_cooldown() {
    let mut h = hook("cpu", Some(80.0), None);
    h.cooldown = "10s".to_string();
    let mut e = Engine::new(&vec![h]);
    assert_eq!(e.check(&values(90.0), 0).len(), 1);
    assert!(e.check(&values(90.0), 9 * SECOND).is_empty());
    assert_eq!(e.check(&values(90.0), 10 * SECOND).len(), 1);
    assert!(e.check(&values(90.0), 19 * SECOND).is_empty());
}

#[test]
fn a_hook_waits_until_its_condition_has_held() {
    let mut h = hook("cpu", None, Some(5.0));
    h.hold_for = "3s".to_string();
    let mut e = Engine::new(&vec![h]);
    assert!(e.check(&values(1.0), 0).is_empty());
    assert!(e.check(&values(1.0), 2 * SECOND).is_empty());
    assert!(e.check(&values(9.0), 3 * SECOND).is_empty());
    assert!(e.check(&values(1.0), 4 * SECOND).is_empty());
    let f = e.check(&values(1.0), 7 * SECOND);
    assert_eq!(f[0].note, "hook cpu < 5 fired (1)");
}

#[test]
fn a_hook_that_fired_recovers_once() {
    let mut h = hook("cpu", Some(80.0), None);
    h.on_recover = "calm".to_string();
    let mut e = Engine::new(&vec![h]);
    assert!(e.check(&values(10.0), 0).is_empty());
    assert_eq!(e.check(&values(90.0), SECOND).len(), 1);
    let f = e.check(&values(70.0), 2 * SECOND);
    assert_eq!(f[0].note, "hook cpu > 80 recovered (70)");
    assert_eq!(f[0].command, "calm");
    assert!(e.check(&values(60.0), 3 * SECOND).is_empty());
}

#[test]
fn a_metric_the_machine_lacks_never_fires() {
    let mut e = Engine::new(&vec![hook("swap", Some(0.0), None), hook("gpu", None, Some(100.0))]);
    assert!(e.check(&values(99.0), 0).is_empty());
    let mut v = values(0.0);
    v.swap = Some(num(5.0));
    assert_eq!(e.check(&v, 1).len(), 1);
}

#[test]
fn failures_wait_in_a_short_list() {
    let mut e = Engine::new(&vec![]);
    for i in 0..6 {
        e.report_error(format!("e{}", i));
    }
    assert_eq!(e.errors(), vec!["e0", "e1", "e2", "e3"]);
    assert!(e.errors().is_empty());
}

#[test]
fn failures_tell_the_first_line_or_the_exit_code() {
    assert_eq!(spawn_failure("cpu", "not found"), "hook cpu: not found");
    assert_eq!(command_failure("mem", "\n  oops\nmore", Some(1)), "hook mem failed: oops");
    assert_eq!(command_failure("mem", "", Some(3)), "hook mem failed: exit status Some(3)");
    assert_eq!(command_failure("mem", " \n", None), "hook mem failed: exit status None");
    let long = "x".repeat(300);
    assert_eq!(command_failure("m", &long, None), format!("hook m failed: {}", "x".repeat(256)));
}
