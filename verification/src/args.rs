//! The command line and the settings a run starts with.

use crate::chars::{joined2, joined3, same, texts};
use crate::config::{Preferences, State};
use crate::scan::{parse_i64, signed_value};
use crate::ui::controls::{clamp_interval, interval_within};
use vstd::prelude::*;

verus! {

/// What the command line asks for.
#[derive(Debug)]
pub struct Args {
    /// The refresh interval in milliseconds.
    pub delay: i64,
    pub all_cpus: bool,
    /// The path of the config file; empty for the default.
    pub config: String,
    pub version: bool,
    pub explicit_delay: bool,
    pub explicit_cores: bool,
}

/// What the command line asks for, as plain values.
#[verifier::ext_equal]
pub struct Wishes {
    pub delay: i64,
    pub all_cpus: bool,
    pub config: Seq<char>,
    pub version: bool,
    pub explicit_delay: bool,
    pub explicit_cores: bool,
}

impl View for Args {
    type V = Wishes;

    open spec fn view(&self) -> Wishes {
        Wishes {
            delay: self.delay,
            all_cpus: self.all_cpus,
            config: self.config@,
            version: self.version,
            explicit_delay: self.explicit_delay,
            explicit_cores: self.explicit_cores,
        }
    }
}

/// What becomes of a command line.
#[derive(Debug)]
pub enum CommandLine {
    Run(Args),
    /// The help is asked for.
    Help,
    /// It cannot be understood: the reason.
    Wrong(String),
}

/// What becomes of a command line, as plain values.
pub enum Understood {
    Run(Wishes),
    Help,
    Wrong(Seq<char>),
}

impl View for CommandLine {
    type V = Understood;

    open spec fn view(&self) -> Understood {
        match *self {
            CommandLine::Run(a) => Understood::Run(a@),
            CommandLine::Help => Understood::Help,
            CommandLine::Wrong(e) => Understood::Wrong(e@),
        }
    }
}

impl Wishes {
    /// Nothing is asked for.
    pub open spec fn none() -> Wishes {
        Wishes {
            delay: 1000,
            all_cpus: false,
            config: seq![],
            version: false,
            explicit_delay: false,
            explicit_cores: false,
        }
    }
}

/// What becomes of the arguments from the `i`-th on, behind those that asked
/// for `w`. The first that is wrong, or asks for help, decides.
pub open spec fn understood(argv: Seq<Seq<char>>, i: int, w: Wishes) -> Understood
    decreases argv.len() - i,
{
    if i < 0 || i >= argv.len() {
        Understood::Run(w)
    } else {
        let arg = argv[i];
        if arg == "-d"@ || arg == "-delay"@ || arg == "--delay"@ {
            if i + 1 >= argv.len() {
                Understood::Wrong("missing value for "@ + arg)
            } else {
                match signed_value(argv[i + 1], i64::MIN as int, i64::MAX as int) {
                    Some(n) => understood(argv, i + 2, Wishes { delay: n as i64, explicit_delay: true, ..w }),
                    None => Understood::Wrong("delay must be an integer"@),
                }
            }
        } else if arg == "-c"@ || arg == "-all-cpus"@ || arg == "--all-cpus"@ {
            understood(argv, i + 1, Wishes { all_cpus: true, explicit_cores: true, ..w })
        } else if arg == "-config"@ || arg == "--config"@ {
            if i + 1 >= argv.len() {
                Understood::Wrong("missing value for "@ + arg)
            } else {
                understood(argv, i + 2, Wishes { config: argv[i + 1], ..w })
            }
        } else if arg == "-version"@ || arg == "--version"@ {
            understood(argv, i + 1, Wishes { version: true, ..w })
        } else if arg == "-h"@ || arg == "-help"@ || arg == "--help"@ {
            Understood::Help
        } else {
            Understood::Wrong("unknown flag: "@ + arg)
        }
    }
}

/// Reads the arguments behind the program's name.
pub fn parse_args(argv: &Vec<String>) -> (r: CommandLine)
    ensures
        r@ == understood(texts(argv@), 0, Wishes::none()),
{
    let mut a = Args {
        delay: 1000,
        all_cpus: false,
        config: String::new(),
        version: false,
        explicit_delay: false,
        explicit_cores: false,
    };
    let mut i: usize = 0;
    let ghost all = texts(argv@);
    proof {
        assert(a@ =~= Wishes::none());
    }
    while i < argv.len()
        invariant
            i <= argv@.len(),
            all == texts(argv@),
            understood(all, 0, Wishes::none()) == understood(all, i as int, a@),
        decreases argv@.len() - i,
    {
        let arg = argv[i].as_str();
        proof {
            assert(all[i as int] == arg@);
            if i + 1 < argv@.len() {
                assert(all[i + 1] == argv@[i + 1]@);
            }
        }
        if same(arg, "-d") || same(arg, "-delay") || same(arg, "--delay") {
            if i + 1 >= argv.len() {
                return CommandLine::Wrong(joined2("missing value for ", arg));
            }
            match parse_i64(argv[i + 1].as_str()) {
                Some(n) => {
                    a.delay = n;
                    a.explicit_delay = true;
                },
                None => {
                    return CommandLine::Wrong("delay must be an integer".to_owned());
                },
            }
            i = i + 2;
        } else if same(arg, "-c") || same(arg, "-all-cpus") || same(arg, "--all-cpus") {
            a.all_cpus = true;
            a.explicit_cores = true;
            i = i + 1;
        } else if same(arg, "-config") || same(arg, "--config") {
            if i + 1 >= argv.len() {
                return CommandLine::Wrong(joined2("missing value for ", arg));
            }
            a.config = argv[i + 1].clone();
            i = i + 2;
        } else if same(arg, "-version") || same(arg, "--version") {
            a.version = true;
            i = i + 1;
        } else if same(arg, "-h") || same(arg, "-help") || same(arg, "--help") {
            return CommandLine::Help;
        } else {
            return CommandLine::Wrong(joined2("unknown flag: ", arg));
        }
    }
    CommandLine::Run(a)
}

/// What `-help` prints.
pub const HELP: &'static str = "teatop [options]\n\n  -d, -delay int    update interval in ms (100 to 5000, default 1000)\n  -c, -all-cpus     show the per-core bar chart on startup\n  -config path      config file path (default ~/.config/teatop/config.yaml)\n  -version          print version and exit";

/// What `-version` prints.
pub fn version_line() -> (r: String)
    ensures
        r@ == "teatop "@ + crate::VERSION@ + " - CPU/Memory/GPU monitor (crossterm TUI)"@,
{
    joined3("teatop ", crate::VERSION, " - CPU/Memory/GPU monitor (crossterm TUI)")
}

/// The refresh interval that a run starts with: remembered preferences seed
/// it, but an explicit one wins.
pub open spec fn first_interval(w: Wishes, state: Option<Preferences>) -> int {
    interval_within(
        match state {
            Some(s) => if w.explicit_delay {
                w.delay as int
            } else {
                s.interval as int
            },
            None => w.delay as int,
        },
    )
}

/// Whether a run starts with the per-core bars: where they are asked for or
/// remembered.
pub open spec fn first_cores(w: Wishes, state: Option<Preferences>) -> bool {
    w.all_cpus || (state matches Some(s) && s.cores)
}

/// The refresh interval and the per-core bars that a run starts with.
pub fn startup(args: &Args, state: Option<&State>) -> (r: (i64, bool))
    ensures
        ({
            let s = match state {
                Some(s) => Some(s@),
                None => None,
            };
            r.0 == first_interval(args@, s) && r.1 == first_cores(args@, s)
        }),
        100 <= r.0 <= 5000,
{
    let mut interval: i64 = args.delay;
    let mut cores = args.all_cpus;
    if let Some(s) = state {
        cores = cores || s.cores;
        if !args.explicit_delay {
            interval = s.interval;
        }
    }
    (clamp_interval(interval), cores)
}

/// An interval in range that is asked for is kept, whatever is remembered.
pub proof fn lemma_explicit_delay_wins(w: Wishes, state: Option<Preferences>)
    requires
        w.explicit_delay,
        100 <= w.delay <= 5000,
    ensures
        first_interval(w, state) == w.delay,
{
}

/// What a run remembers of its interval and bars, the next one starts with,
/// unless its command line says otherwise.
pub proof fn lemma_preferences_carry_over(w: Wishes, p: Preferences)
    requires
        !w.explicit_delay,
        !w.all_cpus,
        100 <= p.interval <= 5000,
    ensures
        first_interval(w, Some(p)) == p.interval,
        first_cores(w, Some(p)) == p.cores,
{
}

} // verus!
