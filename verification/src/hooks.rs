//! Evaluates the config file's hook rules against live metric samples and
//! tells which shell commands to run when a threshold is crossed.

use crate::chars::{chars_of, joined3, signed_numeral, signed_numeral_of, string_of, texts};
use crate::config::{nanos_or_zero, Duration, Hook};
use crate::num::Num;
use crate::scan::{lines, split_lines, trim, trimmed};
use vstd::prelude::*;
use vstd::string::StringExecFns;

verus! {

/// The sampled value of each metric that can be had now.
pub struct Values {
    pub cpu: Num,
    pub mem: Num,
    pub disk: Num,
    pub cpu_temp: Option<Num>,
    pub swap: Option<Num>,
    pub gpu: Option<Num>,
    pub gpu_mem: Option<Num>,
}

impl Values {
    /// The value of a metric by its canonical name.
    pub open spec fn of(&self, metric: Seq<char>) -> Option<Num> {
        if metric == "cpu"@ {
            Some(self.cpu)
        } else if metric == "mem"@ {
            Some(self.mem)
        } else if metric == "disk"@ {
            Some(self.disk)
        } else if metric == "cpu_temp"@ {
            self.cpu_temp
        } else if metric == "swap"@ {
            self.swap
        } else if metric == "gpu"@ {
            self.gpu
        } else if metric == "gpu_mem"@ {
            self.gpu_mem
        } else {
            None
        }
    }

    /// The value of a metric by its canonical name.
    pub fn get(&self, metric: &str) -> (r: Option<Num>)
        ensures
            r == self.of(metric@),
    {
        if crate::chars::same(metric, "cpu") {
            Some(self.cpu)
        } else if crate::chars::same(metric, "mem") {
            Some(self.mem)
        } else if crate::chars::same(metric, "disk") {
            Some(self.disk)
        } else if crate::chars::same(metric, "cpu_temp") {
            self.cpu_temp
        } else if crate::chars::same(metric, "swap") {
            self.swap
        } else if crate::chars::same(metric, "gpu") {
            self.gpu
        } else if crate::chars::same(metric, "gpu_mem") {
            self.gpu_mem
        } else {
            None
        }
    }
}

/// One hook plus its edge-trigger state. Points in time are nanoseconds on a
/// clock that does not go back.
pub struct Rule {
    pub metric: String,
    pub threshold: Num,
    pub above: bool,
    pub command: String,
    pub recover: String,
    pub cooldown: Duration,
    pub hold_for: Duration,
    pub arm: Arm,
}

/// The edge-trigger state of a rule.
#[derive(Clone, Copy, Debug, PartialEq, Eq, Structural)]
pub struct Arm {
    /// The condition holds and the rule has fired for it.
    pub breached: bool,
    /// Since when the condition holds without the rule having fired.
    pub pending_since: Option<u64>,
    /// When the rule last fired.
    pub last_run: Option<u64>,
}

/// What a rule does about a sample.
#[derive(Clone, Copy, Debug, PartialEq, Eq, Structural)]
pub enum Event {
    Quiet,
    Fired,
    Recovered,
}

/// The time from `then` to `now`; none where `then` is later.
pub open spec fn since(now: u64, then: u64) -> nat {
    if now >= then {
        (now - then) as nat
    } else {
        0
    }
}

impl Rule {
    /// Whether a value breaches the threshold.
    pub open spec fn breach(&self, v: Num) -> bool {
        if self.above {
            self.threshold.less(v)
        } else {
            v.less(self.threshold)
        }
    }

    /// The rule's reaction to a value: its new state and what it does.
    pub open spec fn step(&self, v: Num, now: u64) -> (Arm, Event) {
        let a = self.arm;
        if !self.breach(v) {
            (
                Arm { breached: false, pending_since: None, last_run: a.last_run },
                if a.breached && self.recover@.len() > 0 {
                    Event::Recovered
                } else {
                    Event::Quiet
                },
            )
        } else if a.breached {
            if self.cooldown.total() > 0 && a.last_run is Some && since(now, a.last_run->0) >= self.cooldown.total() {
                (Arm { breached: true, pending_since: a.pending_since, last_run: Some(now) }, Event::Fired)
            } else {
                (a, Event::Quiet)
            }
        } else if self.hold_for.total() > 0 {
            let begun = match a.pending_since {
                Some(t) => t,
                None => now,
            };
            if since(now, begun) < self.hold_for.total() {
                (Arm { breached: false, pending_since: Some(begun), last_run: a.last_run }, Event::Quiet)
            } else {
                (Arm { breached: true, pending_since: Some(begun), last_run: Some(now) }, Event::Fired)
            }
        } else {
            (Arm { breached: true, pending_since: a.pending_since, last_run: Some(now) }, Event::Fired)
        }
    }

    /// The rule's reaction to the samples; none to a metric without a value.
    pub open spec fn react(&self, values: Values, now: u64) -> (Arm, Event) {
        match values.of(self.metric@) {
            Some(v) => self.step(v, now),
            None => (self.arm, Event::Quiet),
        }
    }

    /// All but the edge-trigger state.
    pub open spec fn same_setup(&self, other: Rule) -> bool {
        *self == (Rule { arm: self.arm, ..other })
    }

    /// The sign of the rule's condition.
    pub open spec fn sign(&self) -> Seq<char> {
        if self.above {
            ">"@
        } else {
            "<"@
        }
    }

    /// The note for the status line.
    pub open spec fn note(&self, v: Num, word: Seq<char>) -> Seq<char> {
        "hook "@ + self.metric@ + " "@ + self.sign() + " "@ + self.threshold.fixed(0) + word + v.fixed(0) + ")"@
    }

    fn op(&self) -> (r: &'static str)
        ensures
            r@ == self.sign(),
    {
        if self.above {
            ">"
        } else {
            "<"
        }
    }

    fn describe(&self, v: Num, word: &str) -> (r: String)
        ensures
            r@ == self.note(v, word@),
    {
        let mut out = "hook ".to_owned();
        out.append(self.metric.as_str());
        out.append(" ");
        out.append(self.op());
        out.append(" ");
        self.threshold.push_fixed(&mut out, 0);
        out.append(word);
        v.push_fixed(&mut out, 0);
        out.append(")");
        out
    }

    /// The rule's reaction to a value.
    fn advance(&self, v: Num, now: u64) -> (r: (Arm, Event))
        ensures
            r == self.step(v, now),
    {
        let a = self.arm;
        let breach = if self.above {
            self.threshold.lt(v)
        } else {
            v.lt(self.threshold)
        };
        if !breach {
            let event = if a.breached && !self.recover.as_str().is_empty() {
                Event::Recovered
            } else {
                Event::Quiet
            };
            return (Arm { breached: false, pending_since: None, last_run: a.last_run }, event);
        }
        if a.breached {
            let due = match a.last_run {
                Some(t) => now.saturating_sub(t) as u128 >= self.cooldown.as_nanos(),
                None => false,
            };
            if self.cooldown.as_nanos() > 0 && due {
                return (Arm { breached: true, pending_since: a.pending_since, last_run: Some(now) }, Event::Fired);
            }
            return (a, Event::Quiet);
        }
        if self.hold_for.as_nanos() > 0 {
            let begun: u64 = match a.pending_since {
                Some(t) => t,
                None => now,
            };
            if (now.saturating_sub(begun) as u128) < self.hold_for.as_nanos() {
                return (Arm { breached: false, pending_since: Some(begun), last_run: a.last_run }, Event::Quiet);
            }
            return (Arm { breached: true, pending_since: Some(begun), last_run: Some(now) }, Event::Fired);
        }
        (Arm { breached: true, pending_since: a.pending_since, last_run: Some(now) }, Event::Fired)
    }
}

/// A command to run through the shell, detached from the UI, with the trigger
/// context for its environment.
pub struct Firing {
    /// For the status line.
    pub note: String,
    pub command: String,
    /// `TEATOP_METRIC`
    pub metric: String,
    /// `TEATOP_VALUE`
    pub value: String,
    /// `TEATOP_THRESHOLD`
    pub threshold: String,
}

/// The texts of a firing.
#[verifier::ext_equal]
pub struct FiringText {
    pub note: Seq<char>,
    pub command: Seq<char>,
    pub metric: Seq<char>,
    pub value: Seq<char>,
    pub threshold: Seq<char>,
}

impl View for Firing {
    type V = FiringText;

    open spec fn view(&self) -> FiringText {
        FiringText {
            note: self.note@,
            command: self.command@,
            metric: self.metric@,
            value: self.value@,
            threshold: self.threshold@,
        }
    }
}

impl Rule {
    /// What the rule has run about the samples, if anything.
    pub open spec fn firing(&self, values: Values, now: u64) -> Option<FiringText> {
        match values.of(self.metric@) {
            None => None,
            Some(v) => match self.step(v, now).1 {
                Event::Quiet => None,
                Event::Fired => Some(
                    FiringText {
                        note: self.note(v, " fired ("@),
                        command: self.command@,
                        metric: self.metric@,
                        value: v.fixed(1),
                        threshold: self.threshold.fixed(1),
                    },
                ),
                Event::Recovered => Some(
                    FiringText {
                        note: self.note(v, " recovered ("@),
                        command: self.recover@,
                        metric: self.metric@,
                        value: v.fixed(1),
                        threshold: self.threshold.fixed(1),
                    },
                ),
            },
        }
    }
}

/// The firings of a list of rules, in their order.
pub open spec fn firings(rules: Seq<Rule>, values: Values, now: u64) -> Seq<FiringText>
    decreases rules.len(),
{
    if rules.len() == 0 {
        seq![]
    } else {
        let before = firings(rules.drop_last(), values, now);
        match rules.last().firing(values, now) {
            Some(f) => before.push(f),
            None => before,
        }
    }
}

/// The texts of a list of firings.
pub open spec fn firing_texts(v: Seq<Firing>) -> Seq<FiringText> {
    Seq::new(v.len(), |i: int| v[i]@)
}

/// How many failure messages wait at most: a stuck hook must not grow their
/// list without bound.
pub const MAX_ERRORS: usize = 4;

/// The hook rules, their edge-trigger state and the failure messages of their
/// commands.
pub struct Engine {
    pub rules: Vec<Rule>,
    pub errs: Vec<String>,
}

impl Engine {
    /// No more failure messages wait than may.
    pub open spec fn wf(&self) -> bool {
        self.errs@.len() <= MAX_ERRORS
    }

    /// A rule as it is made from a hook.
    pub open spec fn rule_of(r: Rule, h: Hook) -> bool {
        &&& r.metric == h.metric
        &&& r.threshold == h.threshold()
        &&& r.above == (h.above is Some)
        &&& r.command == h.run
        &&& r.recover == h.on_recover
        &&& r.cooldown.total() == nanos_or_zero(h.cooldown@)
        &&& r.hold_for.total() == nanos_or_zero(h.hold_for@)
        &&& r.arm == (Arm { breached: false, pending_since: None, last_run: None })
    }

    /// Builds an engine from validated config hooks.
    pub fn new(hooks: &Vec<Hook>) -> (r: Engine)
        requires
            forall|i: int| 0 <= i < hooks@.len() ==> (#[trigger] hooks@[i]).has_threshold(),
        ensures
            r.wf(),
            r.errs@.len() == 0,
            r.rules@.len() == hooks@.len(),
            forall|i: int| 0 <= i < hooks@.len() ==> Engine::rule_of(#[trigger] r.rules@[i], hooks@[i]),
    {
        let mut rules: Vec<Rule> = Vec::new();
        let mut i: usize = 0;
        while i < hooks.len()
            invariant
                i <= hooks@.len(),
                rules@.len() == i,
                forall|k: int| 0 <= k < hooks@.len() ==> (#[trigger] hooks@[k]).has_threshold(),
                forall|k: int| 0 <= k < i ==> Engine::rule_of(#[trigger] rules@[k], hooks@[k]),
            decreases hooks@.len() - i,
        {
            let h = &hooks[i];
            let (threshold, above) = h.condition();
            rules.push(
                Rule {
                    metric: h.metric.clone(),
                    threshold,
                    above,
                    command: h.run.clone(),
                    recover: h.on_recover.clone(),
                    cooldown: h.cooldown_duration(),
                    hold_for: h.for_duration(),
                    arm: Arm { breached: false, pending_since: None, last_run: None },
                },
            );
            i = i + 1;
        }
        Engine { rules, errs: Vec::new() }
    }

    /// Evaluates every rule against the sampled values. A rule fires when its
    /// condition turns true (and has held long enough), then again every
    /// cooldown while it stays true, and re-arms once it turns false, running
    /// its recovery command when it had fired.
    pub fn check(&mut self, values: &Values, now: u64) -> (r: Vec<Firing>)
        ensures
            firing_texts(r@) == firings(old(self).rules@, *values, now),
            final(self).rules@.len() == old(self).rules@.len(),
            forall|i: int|
                0 <= i < old(self).rules@.len() ==> (#[trigger] final(self).rules@[i]).same_setup(old(self).rules@[i])
                    && final(self).rules@[i].arm == old(self).rules@[i].react(*values, now).0,
            final(self).errs == old(self).errs,
    {
        let mut fired: Vec<Firing> = Vec::new();
        let ghost rules = self.rules@;
        let n: usize = self.rules.len();
        let mut i: usize = 0;
        proof {
            assert(rules.take(0).len() == 0);
            assert(firing_texts(fired@) =~= firings(rules.take(0), *values, now));
        }
        while i < n
            invariant
                i <= n,
                n == rules.len(),
                rules == old(self).rules@,
                self.rules@.len() == n,
                self.errs == old(self).errs,
                firing_texts(fired@) == firings(rules.take(i as int), *values, now),
                forall|k: int|
                    0 <= k < i ==> (#[trigger] self.rules@[k]).same_setup(rules[k]) && self.rules@[k].arm == rules[k].react(
                        *values,
                        now,
                    ).0,
                forall|k: int| i <= k < n ==> self.rules@[k] == rules[k],
            decreases n - i,
        {
            let ghost done = firing_texts(fired@);
            proof {
                assert(rules.take(i + 1).drop_last() =~= rules.take(i as int));
                assert(rules.take(i + 1).last() == rules[i as int]);
            }
            let value = values.get(self.rules[i].metric.as_str());
            if let Some(v) = value {
                let r = &self.rules[i];
                let (arm, event) = r.advance(v, now);
                match event {
                    Event::Quiet => {},
                    Event::Fired => {
                        let f = Firing {
                            note: r.describe(v, " fired ("),
                            command: r.command.clone(),
                            metric: r.metric.clone(),
                            value: v.to_fixed(1),
                            threshold: r.threshold.to_fixed(1),
                        };
                        let ghost g = f@;
                        fired.push(f);
                        proof {
                            assert(firing_texts(fired@) =~= done.push(g));
                        }
                    },
                    Event::Recovered => {
                        let f = Firing {
                            note: r.describe(v, " recovered ("),
                            command: r.recover.clone(),
                            metric: r.metric.clone(),
                            value: v.to_fixed(1),
                            threshold: r.threshold.to_fixed(1),
                        };
                        let ghost g = f@;
                        fired.push(f);
                        proof {
                            assert(firing_texts(fired@) =~= done.push(g));
                        }
                    },
                }
                self.rules[i].arm = arm;
            }
            i = i + 1;
        }
        proof {
            assert(rules.take(n as int) =~= rules);
        }
        fired
    }

    /// Queues a failure message for the status bar, unless enough wait.
    pub fn report_error(&mut self, msg: String)
        requires
            old(self).wf(),
        ensures
            final(self).wf(),
            final(self).rules == old(self).rules,
            final(self).errs@ == if old(self).errs@.len() < MAX_ERRORS {
                old(self).errs@.push(msg)
            } else {
                old(self).errs@
            },
    {
        if self.errs.len() < MAX_ERRORS {
            self.errs.push(msg);
        }
    }

    /// Drains the failure messages collected since the last call.
    pub fn errors(&mut self) -> (r: Vec<String>)
        ensures
            r@ == old(self).errs@,
            final(self).errs@.len() == 0,
            final(self).rules == old(self).rules,
    {
        let mut out: Vec<String> = Vec::new();
        std::mem::swap(&mut out, &mut self.errs);
        out
    }
}

/// The number of bytes of a character in UTF-8.
pub open spec fn utf8_len(c: char) -> nat {
    let n = c as u32;
    if n < 0x80 {
        1
    } else if n < 0x800 {
        2
    } else if n < 0x10000 {
        3
    } else {
        4
    }
}

/// The number of bytes of a text in UTF-8.
pub open spec fn utf8_size(s: Seq<char>) -> nat
    decreases s.len(),
{
    if s.len() == 0 {
        0
    } else {
        utf8_size(s.drop_last()) + utf8_len(s.last())
    }
}

/// How many characters from the `i`-th on still lie within `max` bytes.
pub open spec fn within(s: Seq<char>, max: nat, i: int) -> int
    decreases s.len() - i,
{
    if i < 0 || i >= s.len() || utf8_size(s.take(i + 1)) > max {
        i
    } else {
        within(s, max, i + 1)
    }
}

/// The longest start of a text within `max` bytes.
pub open spec fn byte_cut(s: Seq<char>, max: nat) -> Seq<char> {
    s.take(within(s, max, 0))
}

/// The first line, at most 256 bytes of it.
pub open spec fn first_line(s: Seq<char>) -> Seq<char> {
    let all = lines(trimmed(s));
    if all.len() == 0 {
        seq![]
    } else {
        byte_cut(all[0], 256)
    }
}

/// An exit code, where the command was not ended by a signal.
pub open spec fn code_text(code: Option<i32>) -> Seq<char> {
    match code {
        Some(n) => "Some("@ + signed_numeral(n as int) + ")"@,
        None => "None"@,
    }
}

/// The message of a command that failed.
pub open spec fn failure_text(metric: Seq<char>, stderr: Seq<char>, code: Option<i32>) -> Seq<char> {
    let line = first_line(stderr);
    "hook "@ + metric + " failed: "@ + if line.len() > 0 {
        line
    } else {
        "exit status "@ + code_text(code)
    }
}

fn char_bytes(c: char) -> (r: usize)
    ensures
        r == utf8_len(c),
        1 <= r <= 4,
{
    let n: u32 = c as u32;
    if n < 0x80 {
        1
    } else if n < 0x800 {
        2
    } else if n < 0x10000 {
        3
    } else {
        4
    }
}

/// The longest start of a text within 256 bytes.
fn cut_bytes(s: &str) -> (r: String)
    ensures
        r@ == byte_cut(s@, 256),
{
    let c: Vec<char> = chars_of(s);
    let mut i: usize = 0;
    let mut used: usize = 0;
    proof {
        assert(c@.take(0).len() == 0);
    }
    while i < c.len() && used + char_bytes(c[i]) <= 256
        invariant
            i <= c@.len(),
            used == utf8_size(c@.take(i as int)),
            used <= 256,
            within(c@, 256, 0) == within(c@, 256, i as int),
        decreases c@.len() - i,
    {
        proof {
            assert(c@.take(i + 1).drop_last() =~= c@.take(i as int));
        }
        used = used + char_bytes(c[i]);
        i = i + 1;
    }
    proof {
        if i < c@.len() {
            assert(c@.take(i + 1).drop_last() =~= c@.take(i as int));
        }
        assert(c@.subrange(0, i as int) =~= c@.take(i as int));
    }
    string_of(&c, 0, i)
}

/// The message of a hook command that could not be started.
pub fn spawn_failure(metric: &str, error: &str) -> (r: String)
    ensures
        r@ == "hook "@ + metric@ + ": "@ + error@,
{
    let mut out = joined3("hook ", metric, ": ");
    out.append(error);
    out
}

/// The message of a hook command that failed: the first line it wrote to
/// standard error, cut to whole characters within 256 bytes, or its exit code.
pub fn command_failure(metric: &str, stderr: &str, code: Option<i32>) -> (r: String)
    ensures
        r@ == failure_text(metric@, stderr@, code),
{
    let all: Vec<String> = split_lines(trim(stderr).as_str());
    proof {
        assert(texts(all@).len() == all@.len());
    }
    let line = if all.len() == 0 {
        String::new()
    } else {
        cut_bytes(all[0].as_str())
    };
    proof {
        assert(line@ =~= first_line(stderr@));
    }
    let mut out = joined3("hook ", metric, " failed: ");
    if line.as_str().is_empty() {
        let mut status = "exit status ".to_owned();
        let text = match code {
            Some(n) => joined3("Some(", signed_numeral_of(n as i64).as_str(), ")"),
            None => "None".to_owned(),
        };
        status.append(text.as_str());
        out.append(status.as_str());
    } else {
        out.append(line.as_str());
    }
    out
}

/// A rule fires when its condition turns true, at once where it need not hold
/// for any time.
pub proof fn lemma_fires_on_edge(r: Rule, v: Num, now: u64)
    requires
        !r.arm.breached,
        r.breach(v),
        r.hold_for.total() == 0,
    ensures
        r.step(v, now).1 == Event::Fired,
        r.step(v, now).0.breached,
        r.step(v, now).0.last_run == Some(now),
{
}

/// A condition that has to hold for some time fires nothing when it turns
/// true, and that time is remembered.
pub proof fn lemma_starts_holding(r: Rule, v: Num, now: u64)
    requires
        !r.arm.breached,
        r.arm.pending_since is None,
        r.breach(v),
        r.hold_for.total() > 0,
    ensures
        r.step(v, now).1 == Event::Quiet,
        !r.step(v, now).0.breached,
        r.step(v, now).0.pending_since == Some(now),
{
}

/// A condition that has not yet held long enough fires nothing, and the time
/// it began is remembered; once it has, the rule fires.
pub proof fn lemma_fires_after_holding(r: Rule, v: Num, start: u64, now: u64)
    requires
        !r.arm.breached,
        r.arm.pending_since == Some(start),
        r.breach(v),
        r.hold_for.total() > 0,
    ensures
        r.step(v, now).1 == (if since(now, start) >= r.hold_for.total() {
            Event::Fired
        } else {
            Event::Quiet
        }),
        since(now, start) < r.hold_for.total() ==> r.step(v, now).0 == r.arm,
        r.step(v, now).1 == Event::Fired ==> r.step(v, now).0.breached && r.step(v, now).0.last_run == Some(now),
{
}

/// While its condition stays true, a rule that has fired stays quiet until its
/// cooldown is over, and for good where it has none. The cooldown then runs
/// anew.
pub proof fn lemma_quiet_while_breached(r: Rule, v: Num, last: u64, now: u64)
    requires
        r.arm.breached,
        r.arm.last_run == Some(last),
        r.breach(v),
    ensures
        r.step(v, now).1 == (if r.cooldown.total() > 0 && since(now, last) >= r.cooldown.total() {
            Event::Fired
        } else {
            Event::Quiet
        }),
        r.step(v, now).0.breached,
        r.step(v, now).1 == Event::Fired ==> r.step(v, now).0.last_run == Some(now),
        r.step(v, now).1 == Event::Quiet ==> r.step(v, now).0 == r.arm,
{
}

/// Once its condition turns false a rule is armed again: the next breach fires
/// as the first did.
pub proof fn lemma_rearms(r: Rule, calm: Num, at: u64, v: Num, now: u64)
    requires
        !r.breach(calm),
        r.breach(v),
        r.hold_for.total() == 0,
    ensures
        ({
            let after = Rule { arm: r.step(calm, at).0, ..r };
            &&& !after.arm.breached
            &&& after.arm.pending_since is None
            &&& after.step(v, now).1 == Event::Fired
        }),
{
}

/// The recovery command runs exactly when a rule that had fired, and has one,
/// sees its condition turn false.
pub proof fn lemma_recovers(r: Rule, v: Num, now: u64)
    ensures
        r.step(v, now).1 == Event::Recovered <==> r.arm.breached && !r.breach(v) && r.recover@.len() > 0,
{
}

/// Whether a rule that is armed and need not wait does about a sample what it
/// should do about the value `v` of its metric: it fires exactly where the
/// value is past the threshold, and then reports that value.
pub open spec fn reacts_to(r: Rule, values: Values, now: u64, v: Option<Num>) -> bool {
    let f = firings(seq![r], values, now);
    match v {
        None => f.len() == 0 && r.react(values, now).0 == r.arm,
        Some(x) => {
            let past = if r.above {
                r.threshold.less(x)
            } else {
                x.less(r.threshold)
            };
            &&& r.react(values, now).0.breached == past
            &&& past ==> f.len() == 1 && f[0].value == x.fixed(1) && f[0].threshold == r.threshold.fixed(1) && f[0].metric
                == r.metric@ && f[0].command == r.command@ && r.react(values, now).0.last_run == Some(now)
            &&& !past ==> f.len() == 0
        },
    }
}

/// Each metric has a name of its own.
proof fn lemma_names_apart()
    ensures
        "cpu"@ != "mem"@ && "cpu"@ != "gpu"@ && "mem"@ != "gpu"@ && "disk"@ != "swap"@,
        "cpu"@.len() == 3 && "mem"@.len() == 3 && "gpu"@.len() == 3 && "disk"@.len() == 4 && "swap"@.len() == 4,
        "cpu_temp"@.len() == 8 && "gpu_mem"@.len() == 7,
{
    reveal_strlit("cpu");
    reveal_strlit("mem");
    reveal_strlit("gpu");
    reveal_strlit("disk");
    reveal_strlit("swap");
    reveal_strlit("cpu_temp");
    reveal_strlit("gpu_mem");
    assert("cpu"@[0] == 'c' && "mem"@[0] == 'm' && "gpu"@[0] == 'g' && "disk"@[0] == 'd' && "swap"@[0] == 's');
}

/// A rule watches the metric of its name and no other, whatever the other
/// metrics are; a metric without a value leaves it as it was.
pub proof fn lemma_rule_watches_its_metric(r: Rule, values: Values, now: u64)
    requires
        !r.arm.breached,
        r.hold_for.total() == 0,
    ensures
        r.metric@ == "cpu"@ ==> reacts_to(r, values, now, Some(values.cpu)),
        r.metric@ == "mem"@ ==> reacts_to(r, values, now, Some(values.mem)),
        r.metric@ == "disk"@ ==> reacts_to(r, values, now, Some(values.disk)),
        r.metric@ == "cpu_temp"@ ==> reacts_to(r, values, now, values.cpu_temp),
        r.metric@ == "swap"@ ==> reacts_to(r, values, now, values.swap),
        r.metric@ == "gpu"@ ==> reacts_to(r, values, now, values.gpu),
        r.metric@ == "gpu_mem"@ ==> reacts_to(r, values, now, values.gpu_mem),
{
    lemma_names_apart();
    assert(seq![r].drop_last() =~= Seq::<Rule>::empty());
    assert(seq![r].last() == r);
    assert(firings(seq![r].drop_last(), values, now) =~= Seq::<FiringText>::empty());
}

/// In any state a rule's reaction depends on its own metric alone: samples
/// that agree in it bring about the same.
pub proof fn lemma_other_metrics_ignored(r: Rule, a: Values, b: Values, now: u64)
    requires
        r.metric@ == "cpu"@ ==> a.cpu == b.cpu,
        r.metric@ == "mem"@ ==> a.mem == b.mem,
        r.metric@ == "disk"@ ==> a.disk == b.disk,
        r.metric@ == "cpu_temp"@ ==> a.cpu_temp == b.cpu_temp,
        r.metric@ == "swap"@ ==> a.swap == b.swap,
        r.metric@ == "gpu"@ ==> a.gpu == b.gpu,
        r.metric@ == "gpu_mem"@ ==> a.gpu_mem == b.gpu_mem,
    ensures
        r.react(a, now) == r.react(b, now),
        r.firing(a, now) == r.firing(b, now),
{
    lemma_names_apart();
}

/// Rules do not meddle with each other: what a list of rules has run is what
/// each would have run alone, in their order.
pub proof fn lemma_rules_apart(a: Seq<Rule>, b: Seq<Rule>, values: Values, now: u64)
    ensures
        firings(a + b, values, now) == firings(a, values, now) + firings(b, values, now),
    decreases b.len(),
{
    if b.len() == 0 {
        assert(a + b =~= a);
        assert(firings(a, values, now) + firings(b, values, now) =~= firings(a, values, now));
    } else {
        lemma_rules_apart(a, b.drop_last(), values, now);
        assert((a + b).drop_last() =~= a + b.drop_last());
        assert((a + b).last() == b.last());
        assert(firings(a + b, values, now) =~= firings(a, values, now) + firings(b, values, now));
    }
}

} // verus!
