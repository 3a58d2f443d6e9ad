//! The command line and the settings a run starts with.

use teatop::args::{parse_args, startup, version_line, Args, CommandLine, HELP};
use teatop::config::State;

fn read(argv: &[&str]) -> CommandLine {
    parse_args(&argv.iter().map(|s| s.to_string()).collect())
}

fn run(argv: &[&str]) -> Args {
    match read(argv) {
        CommandLine::Run(a) => a,
        other => panic!("{:?}", other),
    }
}

fn wrong(argv: &[&str]) -> String {
    match read(argv) {
        CommandLine::Wrong(e) => e,
        other => panic!("{:?}", other),
    }
}

fn state(cores: bool, interval: i64) -> State {
    State { sort: String::new(), sort_asc: false, tree: false, mine: false, cores, history: true, interval }
}

#[test]
fn flags_are_read_in_every_spelling() {
    let a = run(&[]);
    assert_eq!((a.delay, a.all_cpus, a.explicit_delay, a.version, a.config.as_str()), (1000, false, false, false, ""));
    for f in ["-d", "-delay", "--delay"] {
        let a = run(&[f, "250"]);
        assert_eq!((a.delay, a.explicit_delay), (250, true));
    }
    for f in ["-c", "-all-cpus", "--all-cpus"] {
        assert!(run(&[f]).all_cpus && run(&[f]).explicit_cores);
    }
    assert_eq!(run(&["-config", "x.yaml", "-c"]).config, "x.yaml");
    assert_eq!(run(&["--config", "-d"]).config, "-d");
    assert!(run(&["-version"]).version && run(&["--version"]).version);
    for f in ["-h", "-help", "--help"] {
        assert!(matches!(read(&["-c", f, "bogus"]), CommandLine::Help));
    }
}

#[test]
fn mistakes_are_named() {
    assert_eq!(wrong(&["-d"]), "missing value for -d");
    assert_eq!(wrong(&["--config"]), "missing value for --config");
    assert_eq!(wrong(&["-d", "1s"]), "delay must be an integer");
    assert_eq!(wrong(&["-d", "99999999999999999999"]), "delay must be an integer");
    assert_eq!(wrong(&["--fast", "-h"]), "unknown flag: --fast");
}

#[test]
fn help_and_version() {
    assert!(HELP.starts_with("teatop [options]\n\n  -d, -delay int    update interval in ms (100 to 5000, default 1000)\n"));
    assert!(HELP.ends_with("\n  -version          print version and exit"));
    assert_eq!(version_line(), "teatop 3.0.0 - CPU/Memory/GPU monitor (crossterm TUI)");
}

#[test]
fn remembered_preferences_seed_a_run() {
    assert_eq!(startup(&run(&[]), None), (1000, false));
    assert_eq!(startup(&run(&[]), Some(&state(true, 300))), (300, true));
    assert_eq!(startup(&run(&["-d", "2000"]), Some(&state(false, 300))), (2000, false));
    assert_eq!(startup(&run(&["-c"]), Some(&state(false, 0))), (100, true));
    assert_eq!(startup(&run(&["-d", "90000"]), None), (5000, false));
}
