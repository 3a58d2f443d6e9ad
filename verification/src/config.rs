//! The optional YAML config (which dashboard sections to render and the hook
//! rules) and the view preferences remembered between runs. Every config key
//! is optional; a missing key keeps its default.

use crate::chars::{chars_of, joined2, joined3, numeral, numeral_of, same, string_of};
use crate::num::read::{ascii_lower, is_digit, is_digit_char, read_number};
use crate::num::value::{grain, lemma_of_within, lemma_product_within, lemma_quotient_within, lemma_vast, size, within};
use crate::num::Num;
use crate::scan::{trim, trim_end, trim_start, trimmed, white};
use vstd::prelude::*;
use vstd::string::StringExecFns;

verus! {

/// A span of time, in whole seconds and nanoseconds.
#[derive(Clone, Copy, Debug, PartialEq, Eq, Structural)]
pub struct Duration {
    pub secs: u64,
    pub nanos: u32,
}

pub const NANOS_PER_SEC: u64 = 1_000_000_000;

impl Duration {
    /// Fewer nanoseconds than a second holds.
    pub open spec fn wf(self) -> bool {
        self.nanos < NANOS_PER_SEC
    }

    /// The span in nanoseconds.
    pub open spec fn total(self) -> nat {
        self.secs as nat * NANOS_PER_SEC as nat + self.nanos as nat
    }

    pub open spec fn spec_zero() -> Duration {
        Duration { secs: 0, nanos: 0 }
    }

    /// No time at all.
    pub fn zero() -> (r: Duration)
        ensures
            r == Duration::spec_zero(),
    {
        Duration { secs: 0, nanos: 0 }
    }

    pub fn from_secs(secs: u64) -> (r: Duration)
        ensures
            r.wf(),
            r.total() == secs * NANOS_PER_SEC,
    {
        Duration { secs, nanos: 0 }
    }

    pub fn from_millis(ms: u64) -> (r: Duration)
        ensures
            r.wf(),
            r.total() == ms * 1_000_000,
    {
        Duration { secs: ms / 1000, nanos: ((ms % 1000) * 1_000_000) as u32 }
    }

    /// The span in nanoseconds.
    pub fn as_nanos(self) -> (r: u128)
        ensures
            r == self.total(),
    {
        self.secs as u128 * 1_000_000_000 + self.nanos as u128
    }

    /// The span of a number of nanoseconds, where one can hold it.
    pub fn from_nanos(n: u128) -> (r: Option<Duration>)
        ensures
            r is Some <==> n < 0x1_0000_0000_0000_0000 * NANOS_PER_SEC,
            r matches Some(d) ==> d.wf() && d.total() == n,
    {
        let secs: u128 = n / 1_000_000_000;
        if secs > u64::MAX as u128 {
            None
        } else {
            Some(Duration { secs: secs as u64, nanos: (n % 1_000_000_000) as u32 })
        }
    }
}

/// A character of a number in a duration.
pub open spec fn in_number(c: char) -> bool {
    is_digit(c) || c == '.'
}

/// The first place from `i` on that holds no character of a number.
pub open spec fn number_end(s: Seq<char>, i: int) -> int
    decreases s.len() - i,
{
    if 0 <= i < s.len() && in_number(s[i]) {
        number_end(s, i + 1)
    } else {
        i
    }
}

/// The first place from `i` on that holds a character of a number, or the end.
pub open spec fn unit_end(s: Seq<char>, i: int) -> int
    decreases s.len() - i,
{
    if 0 <= i < s.len() && !in_number(s[i]) {
        unit_end(s, i + 1)
    } else {
        i
    }
}

/// A number of units in seconds.
pub open spec fn in_seconds(n: Num, u: Seq<char>) -> Option<Num> {
    if u == "ns"@ {
        Some(n.quotient(Num::of(1_000_000_000)))
    } else if u == "us"@ || u == "µs"@ {
        Some(n.quotient(Num::of(1_000_000)))
    } else if u == "ms"@ {
        Some(n.quotient(Num::of(1_000)))
    } else if u == "s"@ {
        Some(n)
    } else if u == "m"@ {
        Some(n.product(Num::of(60)))
    } else if u == "h"@ {
        Some(n.product(Num::of(3600)))
    } else {
        None
    }
}

/// A number of seconds in nanoseconds, where it is a span of time.
pub open spec fn span_nanos(secs: Num) -> Option<nat> {
    if secs.nan() || secs.infinite() || (secs.negative() && secs.mag() != 0) || secs.whole() > u64::MAX {
        None
    } else {
        Some(secs.nanos())
    }
}

/// The nanoseconds of the number and unit that begin at `i`.
pub open spec fn part_nanos(s: Seq<char>, i: int) -> Option<nat> {
    let a = number_end(s, i);
    match read_number(s.subrange(i, a)) {
        None => None,
        Some(n) => match in_seconds(n, s.subrange(a, unit_end(s, a))) {
            None => None,
            Some(secs) => span_nanos(secs),
        },
    }
}

/// The sum of the parts from `i` on: numbers, each with its unit.
pub open spec fn parts_nanos(s: Seq<char>, i: int) -> Option<nat>
    decreases s.len() - i,
{
    let next = unit_end(s, number_end(s, i));
    if i >= s.len() {
        Some(0)
    } else if number_end(s, i) == i || next <= i || next > s.len() {
        None
    } else {
        match (part_nanos(s, i), parts_nanos(s, next)) {
            (Some(a), Some(b)) => Some(a + b),
            _ => None,
        }
    }
}

/// The nanoseconds of a duration such as `90s`, `1h30m` or `500ms`; nothing
/// for text that is malformed or a span too long to hold.
pub open spec fn duration_nanos(s: Seq<char>) -> Option<nat> {
    let t = trimmed(s);
    if t.len() == 0 {
        None
    } else {
        match parts_nanos(t, 0) {
            Some(n) => if n < 0x1_0000_0000_0000_0000 * NANOS_PER_SEC {
                Some(n)
            } else {
                None
            },
            None => None,
        }
    }
}

proof fn lemma_number_end(s: Seq<char>, i: int)
    requires
        0 <= i <= s.len(),
    ensures
        i <= number_end(s, i) <= s.len(),
    decreases s.len() - i,
{
    if i < s.len() && in_number(s[i]) {
        lemma_number_end(s, i + 1);
    }
}

proof fn lemma_unit_end(s: Seq<char>, i: int)
    requires
        0 <= i <= s.len(),
    ensures
        i <= unit_end(s, i) <= s.len(),
    decreases s.len() - i,
{
    if i < s.len() && !in_number(s[i]) {
        lemma_unit_end(s, i + 1);
    }
}

/// A number that ends inside a text ends there with more behind the text too.
proof fn lemma_number_end_stays(a: Seq<char>, b: Seq<char>, i: int)
    requires
        0 <= i,
        number_end(a, i) < a.len(),
    ensures
        number_end(a + b, i) == number_end(a, i),
    decreases a.len() - i,
{
    if i < a.len() && in_number(a[i]) {
        lemma_number_end_stays(a, b, i + 1);
    }
}

/// A unit ends with its text where a number follows.
proof fn lemma_unit_end_stays(a: Seq<char>, b: Seq<char>, i: int)
    requires
        0 <= i <= a.len(),
        b.len() > 0,
        in_number(b[0]),
    ensures
        unit_end(a + b, i) == unit_end(a, i),
        i <= unit_end(a, i) <= a.len(),
    decreases a.len() - i,
{
    if i < a.len() {
        if !in_number(a[i]) {
            lemma_unit_end_stays(a, b, i + 1);
        }
    } else {
        assert((a + b)[i] == b[0]);
    }
}

/// Text in front moves where a number and a unit end.
proof fn lemma_ends_shift(a: Seq<char>, b: Seq<char>, j: int)
    requires
        0 <= j <= b.len(),
    ensures
        number_end(a + b, a.len() + j) == a.len() + number_end(b, j),
        unit_end(a + b, a.len() + j) == a.len() + unit_end(b, j),
    decreases b.len() - j,
{
    if j < b.len() {
        assert((a + b)[a.len() + j] == b[j]);
        lemma_ends_shift(a, b, j + 1);
    }
}

/// Text in front of the parts does not change their sum.
proof fn lemma_parts_shift(a: Seq<char>, b: Seq<char>, j: int)
    requires
        0 <= j <= b.len(),
    ensures
        parts_nanos(a + b, a.len() + j) == parts_nanos(b, j),
    decreases b.len() - j,
{
    let s = a + b;
    let i = a.len() + j;
    if j < b.len() {
        let e = number_end(b, j);
        lemma_number_end(b, j);
        lemma_ends_shift(a, b, j);
        lemma_ends_shift(a, b, e);
        lemma_unit_end(b, e);
        let next = unit_end(b, e);
        if e > j && j < next <= b.len() {
            assert(s.subrange(i, a.len() + e) =~= b.subrange(j, e));
            assert(s.subrange(a.len() + e, a.len() + next) =~= b.subrange(e, next));
            lemma_parts_shift(a, b, next);
        }
    }
}

/// The parts of a text and those of a text behind it add up.
proof fn lemma_parts_add(a: Seq<char>, b: Seq<char>, i: int)
    requires
        0 <= i <= a.len(),
        b.len() > 0,
        in_number(b[0]),
        parts_nanos(a, i) is Some,
        parts_nanos(b, 0) is Some,
    ensures
        parts_nanos(a + b, i) == Some(parts_nanos(a, i)->0 + parts_nanos(b, 0)->0),
    decreases a.len() - i,
{
    let s = a + b;
    if i < a.len() {
        let e = number_end(a, i);
        let next = unit_end(a, e);
        lemma_number_end(a, i);
        lemma_unit_end_stays(a, b, e);
        if e == a.len() {
            assert(a.subrange(e, next).len() == 0);
            lemma_unit_needed(a.subrange(e, next));
            assert(forall|n: Num| in_seconds(n, a.subrange(e, next)) is None);
            assert(part_nanos(a, i) is None);
            assert(false);
        }
        lemma_number_end_stays(a, b, i);
        assert(s.subrange(i, e) =~= a.subrange(i, e));
        assert(s.subrange(e, next) =~= a.subrange(e, next));
        assert(part_nanos(s, i) == part_nanos(a, i));
        lemma_parts_add(a, b, next);
    } else {
        lemma_parts_shift(a, b, 0);
    }
}

/// A number without a unit is no duration.
proof fn lemma_unit_needed(u: Seq<char>)
    requires
        u.len() == 0,
    ensures
        forall|n: Num| #[trigger] in_seconds(n, u) is None,
{
    reveal_strlit("ns");
    reveal_strlit("us");
    reveal_strlit("µs");
    reveal_strlit("ms");
    reveal_strlit("s");
    reveal_strlit("m");
    reveal_strlit("h");
}

/// Durations written one behind the other add up: `1h` and `30m` make `1h30m`.
pub proof fn lemma_durations_add(a: Seq<char>, b: Seq<char>)
    requires
        duration_nanos(a) is Some,
        duration_nanos(b) is Some,
        duration_nanos(a)->0 + duration_nanos(b)->0 < 0x1_0000_0000_0000_0000 * NANOS_PER_SEC,
    ensures
        duration_nanos(trimmed(a) + trimmed(b)) == Some(duration_nanos(a)->0 + duration_nanos(b)->0),
{
    let s = trimmed(a);
    let t = trimmed(b);
    assert(in_number(s[0]) && in_number(t[0]));
    lemma_parts_add(s, t, 0);
    lemma_trimmed_end(trim_start(b));
    assert((s + t)[0] == s[0]);
    assert((s + t).last() == t.last());
    assert(trimmed(s + t) == s + t);
}

/// Trimmed text does not end in whitespace.
proof fn lemma_trimmed_end(s: Seq<char>)
    ensures
        trim_end(s).len() > 0 ==> !white(trim_end(s).last()),
    decreases s.len(),
{
    if s.len() > 0 && white(s.last()) {
        lemma_trimmed_end(s.drop_last());
    }
}

/// The text of a duration in nanoseconds, nothing counted as zero.
pub open spec fn nanos_or_zero(s: Seq<char>) -> nat {
    match duration_nanos(s) {
        Some(n) => n,
        None => 0,
    }
}

fn is_in_number(c: char) -> (r: bool)
    ensures
        r == in_number(c),
{
    is_digit_char(c) || c == '.'
}

fn seconds_of(n: Num, u: &str) -> (r: Option<Num>)
    ensures
        r == in_seconds(n, u@),
{
    if same(u, "ns") {
        Some(n.over(Num::from_u64(1_000_000_000)))
    } else if same(u, "us") || same(u, "µs") {
        Some(n.over(Num::from_u64(1_000_000)))
    } else if same(u, "ms") {
        Some(n.over(Num::from_u64(1_000)))
    } else if same(u, "s") {
        Some(n)
    } else if same(u, "m") {
        Some(n.times(Num::from_u64(60)))
    } else if same(u, "h") {
        Some(n.times(Num::from_u64(3600)))
    } else {
        None
    }
}

/// Parses a duration string (`90s`, `5m`, `1h30m`, `500ms`). Returns `None`
/// on any malformed input, and for a span too long to hold.
pub fn parse_duration(s: &str) -> (r: Option<Duration>)
    ensures
        match r {
            Some(d) => d.wf() && duration_nanos(s@) == Some(d.total()),
            None => duration_nanos(s@) is None,
        },
{
    let t = trim(s);
    let c: Vec<char> = chars_of(t.as_str());
    let n: usize = c.len();
    if n == 0 {
        return None;
    }
    let mut total: u128 = 0;
    let mut i: usize = 0;
    let ghost all = parts_nanos(c@, 0);
    while i < n
        invariant
            i <= n,
            n == c@.len(),
            c@ == trimmed(s@),
            n > 0,
            all == parts_nanos(c@, 0),
            total < 0x1_0000_0000_0000_0000 * NANOS_PER_SEC,
            match parts_nanos(c@, i as int) {
                Some(rest) => all == Some(total as nat + rest),
                None => all is None,
            },
        decreases n - i,
    {
        let start: usize = i;
        while i < n && is_in_number(c[i])
            invariant
                start <= i <= n,
                n == c@.len(),
                number_end(c@, start as int) == number_end(c@, i as int),
            decreases n - i,
        {
            i = i + 1;
        }
        if i == start {
            return None;
        }
        let mid: usize = i;
        let num = Num::parse(string_of(&c, start, mid).as_str());
        while i < n && !is_in_number(c[i])
            invariant
                mid <= i <= n,
                n == c@.len(),
                unit_end(c@, mid as int) == unit_end(c@, i as int),
            decreases n - i,
        {
            i = i + 1;
        }
        let word = string_of(&c, mid, i);
        let num = match num {
            Some(x) => x,
            None => return None,
        };
        let secs = match seconds_of(num, word.as_str()) {
            Some(x) => x,
            None => return None,
        };
        let part: u128 = match secs.to_nanos() {
            Some(x) => x,
            None => return None,
        };
        assert(part_nanos(c@, start as int) == Some(part as nat));
        total = total + part;
        if total >= 0x1_0000_0000_0000_0000 * 1_000_000_000 {
            return None;
        }
    }
    Duration::from_nanos(total)
}

/// A hook runs a shell command when a metric crosses a threshold.
#[derive(Debug, Clone)]
pub struct Hook {
    pub metric: String,
    pub above: Option<Num>,
    pub below: Option<Num>,
    pub run: String,
    pub cooldown: String,
    pub hold_for: String,
    pub on_recover: String,
}

/// The lower-case equivalent of a text, as `str::to_lowercase` gives it.
pub uninterp spec fn lowered(s: Seq<char>) -> Seq<char>;

/// `str::to_lowercase`: a function of the text alone, which on ASCII text
/// turns each letter into its lower-case letter and keeps the rest. Each
/// character gives one or more, so text that holds any still does.
#[verifier::external_body]
pub(crate) fn lowercase(s: &str) -> (r: String)
    ensures
        r@ == lowered(s@),
        (forall|i: int| 0 <= i < s@.len() ==> (#[trigger] s@[i]) as u32 <= 0x7f) ==> r@ == s@.map_values(
            |c: char| ascii_lower(c),
        ),
        s@.len() > 0 ==> r@.len() > 0,
{
    s.to_lowercase()
}

/// A text in quotes with what cannot be printed escaped, as `{:?}` writes it.
pub uninterp spec fn quoted(s: Seq<char>) -> Seq<char>;

/// `{:?}` on a `str`: a function of the text alone, which puts printable ASCII
/// without quotes and backslashes between double quotes as it is.
#[verifier::external_body]
pub(crate) fn quote(s: &str) -> (r: String)
    ensures
        r@ == quoted(s@),
        (forall|i: int|
            0 <= i < s@.len() ==> ' ' <= (#[trigger] s@[i]) <= '~' && s@[i] != '"' && s@[i] != '\\') ==> r@ == seq!['"']
            + s@ + seq!['"'],
{
    format!("{:?}", s)
}

/// The canonical name of an accepted metric spelling.
pub open spec fn canonical(low: Seq<char>) -> Option<Seq<char>> {
    if low == "cpu"@ {
        Some("cpu"@)
    } else if low == "cpu_temp"@ || low == "cpu-temp"@ {
        Some("cpu_temp"@)
    } else if low == "mem"@ || low == "memory"@ {
        Some("mem"@)
    } else if low == "swap"@ {
        Some("swap"@)
    } else if low == "disk"@ {
        Some("disk"@)
    } else if low == "gpu"@ {
        Some("gpu"@)
    } else if low == "gpu_mem"@ || low == "gpu-mem"@ || low == "gpumem"@ {
        Some("gpu_mem"@)
    } else {
        None
    }
}

/// The canonical name of a metric spelled in lower case.
pub fn canonical_name(low: &str) -> (r: Option<&'static str>)
    ensures
        match r {
            Some(m) => canonical(low@) == Some(m@),
            None => canonical(low@) is None,
        },
{
    if same(low, "cpu") {
        Some("cpu")
    } else if same(low, "cpu_temp") || same(low, "cpu-temp") {
        Some("cpu_temp")
    } else if same(low, "mem") || same(low, "memory") {
        Some("mem")
    } else if same(low, "swap") {
        Some("swap")
    } else if same(low, "disk") {
        Some("disk")
    } else if same(low, "gpu") {
        Some("gpu")
    } else if same(low, "gpu_mem") || same(low, "gpu-mem") || same(low, "gpumem") {
        Some("gpu_mem")
    } else {
        None
    }
}

/// Maps accepted metric spellings, whatever their case, to their canonical
/// name.
pub fn canonical_metric(s: &str) -> (r: Option<&'static str>)
    ensures
        match r {
            Some(m) => canonical(lowered(s@)) == Some(m@),
            None => canonical(lowered(s@)) is None,
        },
{
    let low = lowercase(s);
    canonical_name(low.as_str())
}

impl Hook {
    /// The canonical name of the hook's metric.
    pub open spec fn canon(&self) -> Option<Seq<char>> {
        canonical(lowered(trimmed(self.metric@)))
    }

    /// What is wrong with the hook, if anything.
    #[verifier::opaque]
    pub open spec fn fault(&self) -> Option<Seq<char>> {
        if self.canon() is None {
            Some(
                "unknown metric "@ + quoted(self.metric@)
                    + " (use cpu, cpu_temp, mem, swap, disk, gpu or gpu_mem)"@,
            )
        } else if (self.above is Some) == (self.below is Some) {
            Some("set exactly one of above or below"@)
        } else if trimmed(self.run@).len() == 0 {
            Some("run must be a shell command"@)
        } else if self.cooldown@.len() > 0 && duration_nanos(self.cooldown@) is None {
            Some("invalid cooldown: "@ + quoted(self.cooldown@))
        } else if self.hold_for@.len() > 0 && duration_nanos(self.hold_for@) is None {
            Some("invalid for: "@ + quoted(self.hold_for@))
        } else {
            None
        }
    }

    /// Whether the hook has a threshold.
    pub open spec fn has_threshold(&self) -> bool {
        self.above is Some || self.below is Some
    }

    /// The hook's threshold.
    pub open spec fn threshold(&self) -> Num {
        match self.above {
            Some(v) => v,
            None => self.below->0,
        }
    }

    /// All but the metric's name.
    pub open spec fn same_but_metric(&self, other: Hook) -> bool {
        self.above == other.above && self.below == other.below && self.run == other.run && self.cooldown == other.cooldown
            && self.hold_for == other.hold_for && self.on_recover == other.on_recover
    }

    /// Checks the hook and canonicalises its metric name.
    pub fn validate(&mut self) -> (r: Result<(), String>)
        ensures
            match r {
                Ok(_) => old(self).fault() is None,
                Err(m) => old(self).fault() == Some(m@),
            },
            final(self).same_but_metric(*old(self)),
            match old(self).canon() {
                Some(m) => final(self).metric@ == m,
                None => final(self).metric == old(self).metric,
            },
            r is Ok ==> old(self).canon() is Some && final(self).has_threshold(),
    {
        proof {
            reveal(Hook::fault);
        }
        let name = trim(self.metric.as_str());
        match canonical_metric(name.as_str()) {
            Some(m) => {
                self.metric = m.to_owned();
            },
            None => {
                let q = quote(self.metric.as_str());
                return Err(
                    joined3(
                        "unknown metric ",
                        q.as_str(),
                        " (use cpu, cpu_temp, mem, swap, disk, gpu or gpu_mem)",
                    ),
                );
            },
        }
        if self.above.is_some() == self.below.is_some() {
            return Err("set exactly one of above or below".to_owned());
        }
        if trim(self.run.as_str()).as_str().is_empty() {
            return Err("run must be a shell command".to_owned());
        }
        if !self.cooldown.as_str().is_empty() && parse_duration(self.cooldown.as_str()).is_none() {
            let q = quote(self.cooldown.as_str());
            return Err(joined2("invalid cooldown: ", q.as_str()));
        }
        if !self.hold_for.as_str().is_empty() && parse_duration(self.hold_for.as_str()).is_none() {
            let q = quote(self.hold_for.as_str());
            return Err(joined2("invalid for: ", q.as_str()));
        }
        Ok(())
    }

    /// The threshold and whether the hook triggers above it.
    pub fn condition(&self) -> (r: (Num, bool))
        requires
            self.has_threshold(),
        ensures
            r.0 == self.threshold(),
            r.1 == (self.above is Some),
    {
        match self.above {
            Some(v) => (v, true),
            None => (self.below.unwrap(), false),
        }
    }

    /// How long the hook stays quiet between firings; no time where unset.
    pub fn cooldown_duration(&self) -> (r: Duration)
        ensures
            r.wf(),
            r.total() == nanos_or_zero(self.cooldown@),
    {
        parse_duration(self.cooldown.as_str()).unwrap_or(Duration::zero())
    }

    /// How long the condition must hold before the hook fires.
    pub fn for_duration(&self) -> (r: Duration)
        ensures
            r.wf(),
            r.total() == nanos_or_zero(self.hold_for@),
    {
        parse_duration(self.hold_for.as_str()).unwrap_or(Duration::zero())
    }
}

/// Which dashboard sections are rendered and which hooks run.
#[derive(Debug, Clone)]
pub struct Config {
    pub cpu: bool,
    pub memory: bool,
    pub swap: bool,
    pub disk: bool,
    pub gpu: bool,
    pub history: bool,
    pub cores: bool,
    pub processes: bool,
    pub system: bool,
    pub hooks: Vec<Hook>,
}

impl Config {
    /// Every section on, per-core bars off at startup, no hooks.
    pub open spec fn is_default(&self) -> bool {
        self.cpu && self.memory && self.swap && self.disk && self.gpu && self.history && !self.cores && self.processes
            && self.system && self.hooks@.len() == 0
    }

    /// The same sections.
    pub open spec fn same_sections(&self, other: Config) -> bool {
        self.cpu == other.cpu && self.memory == other.memory && self.swap == other.swap && self.disk == other.disk
            && self.gpu == other.gpu && self.history == other.history && self.cores == other.cores && self.processes
            == other.processes && self.system == other.system
    }

    /// Every hook has a threshold.
    pub open spec fn hooks_have_thresholds(&self) -> bool {
        forall|i: int| 0 <= i < self.hooks@.len() ==> (#[trigger] self.hooks@[i]).has_threshold()
    }
}

impl Default for Config {
    /// The configuration used when no file (or key) is present.
    fn default() -> (r: Config)
        ensures
            r.is_default(),
    {
        Config {
            cpu: true,
            memory: true,
            swap: true,
            disk: true,
            gpu: true,
            history: true,
            cores: false,
            processes: true,
            system: true,
            hooks: Vec::new(),
        }
    }
}

/// A path one level further down.
pub open spec fn path_join(base: Seq<char>, name: Seq<char>) -> Seq<char> {
    if base.len() == 0 || base.last() == '/' {
        base + name
    } else {
        base + seq!['/'] + name
    }
}

fn joined_path(base: &str, name: &str) -> (r: String)
    ensures
        r@ == path_join(base@, name@),
{
    let c: Vec<char> = chars_of(base);
    if c.len() == 0 || c[c.len() - 1] == '/' {
        joined2(base, name)
    } else {
        let mut out = base.to_owned();
        out.push('/');
        out.append(name);
        proof {
            assert(out@ =~= path_join(base@, name@));
        }
        out
    }
}

/// The text of an environment variable, where it is set.
pub open spec fn var(v: Option<&str>) -> Option<Seq<char>> {
    match v {
        Some(s) => Some(s@),
        None => None,
    }
}

/// The directory that holds configuration: `XDG_CONFIG_HOME` where it is set
/// and not empty, else `.config` in the home directory.
pub open spec fn config_home(xdg: Option<Seq<char>>, home: Option<Seq<char>>) -> Option<Seq<char>> {
    if xdg is Some && (xdg->0).len() > 0 {
        xdg
    } else {
        match home {
            Some(h) => Some(path_join(h, ".config"@)),
            None => None,
        }
    }
}

/// A file of the program's own in the configuration directory.
pub open spec fn own_file(xdg: Option<Seq<char>>, home: Option<Seq<char>>, name: Seq<char>) -> Option<Seq<char>> {
    match config_home(xdg, home) {
        Some(d) => Some(path_join(path_join(d, "teatop"@), name)),
        None => None,
    }
}

fn config_dir(xdg: Option<&str>, home: Option<&str>) -> (r: Option<String>)
    ensures
        match r {
            Some(d) => config_home(var(xdg), var(home)) == Some(d@),
            None => config_home(var(xdg), var(home)) is None,
        },
{
    if let Some(x) = xdg {
        if !x.is_empty() {
            return Some(x.to_owned());
        }
    }
    match home {
        Some(h) => Some(joined_path(h, ".config")),
        None => None,
    }
}

/// The default config file location, usually `~/.config/teatop/config.yaml`,
/// from the values of `XDG_CONFIG_HOME` and `HOME`.
pub fn path(xdg: Option<&str>, home: Option<&str>) -> (r: Option<String>)
    ensures
        match r {
            Some(p) => own_file(var(xdg), var(home), "config.yaml"@) == Some(p@),
            None => own_file(var(xdg), var(home), "config.yaml"@) is None,
        },
{
    match config_dir(xdg, home) {
        Some(d) => {
            let own = joined_path(d.as_str(), "teatop");
            Some(joined_path(own.as_str(), "config.yaml"))
        },
        None => None,
    }
}

/// The state file location, alongside the config file.
pub fn state_path(xdg: Option<&str>, home: Option<&str>) -> (r: Option<String>)
    ensures
        match r {
            Some(p) => own_file(var(xdg), var(home), "state.yaml"@) == Some(p@),
            None => own_file(var(xdg), var(home), "state.yaml"@) is None,
        },
{
    match config_dir(xdg, home) {
        Some(d) => {
            let own = joined_path(d.as_str(), "teatop");
            Some(joined_path(own.as_str(), "state.yaml"))
        },
        None => None,
    }
}

/// The documented file that is written on the first run.
pub const DEFAULT_FILE: &'static str =
    "# teatop configuration\n#\n# Every key is optional; a missing key keeps its default.\n\n# Dashboard sections\ncpu: true        # CPU gauge (utilization, frequency, temperature)\nmemory: true     # memory gauge\nswap: true       # swap gauge (only shown when swap exists)\ndisk: true       # root filesystem gauge\ngpu: true        # GPU gauges, chart series and table columns\nhistory: true    # utilization history chart\ncores: false     # per-core bars at startup (toggle with c)\nprocesses: true  # process table\nsystem: true     # status bar network/disk/load/uptime readout\n\n# Hooks: run a shell command when a metric crosses a threshold.\n# Metrics: cpu, mem, swap, disk, gpu, gpu_mem (percentages, 0-100)\n# and cpu_temp (degrees Celsius). The command runs in the background\n# via sh -c with TEATOP_METRIC, TEATOP_VALUE and TEATOP_THRESHOLD in\n# its environment; failures show in the status bar. YAML-quote the\n# whole command (single quotes) when it contains \": \".\n#\n# hooks:\n#   - metric: mem\n#     above: 85\n#     run: notify-send \"teatop\" \"memory above 85% (${TEATOP_VALUE}%)\"\n#     for: 30s        # condition must hold this long before firing\n#     cooldown: 10m   # re-fire while it stays breached\n#     on_recover: notify-send \"teatop\" \"memory back below 85%\"\n";

/// Why a config could not be loaded.
#[derive(Debug)]
pub struct LoadError {
    pub msg: String,
    pub kind: ErrorKindTag,
}

/// A missing file apart from every other failure, so an explicit path never
/// falls back silently.
#[derive(Clone, Copy, Debug, PartialEq, Eq, Structural)]
pub enum ErrorKindTag {
    NotFound,
    Other,
}

/// What reading a config file gave.
pub enum Source {
    /// The file could not be read: the reason, and whether it is missing.
    Unread(String, bool),
    /// The file holds nothing but whitespace.
    Blank,
    /// The file is not a config: the reason.
    Unparsed(String),
    /// The file's settings, hooks unchecked.
    Parsed(Config),
}

/// Whether a file's text holds nothing but whitespace.
pub fn is_blank(data: &str) -> (r: bool)
    ensures
        r == (trimmed(data@).len() == 0),
{
    trim(data).as_str().is_empty()
}

/// The first hook with a fault.
pub open spec fn first_fault(hooks: Seq<Hook>, i: int) -> Option<int>
    decreases hooks.len() - i,
{
    if i < 0 || i >= hooks.len() {
        None
    } else if hooks[i].fault() is Some {
        Some(i)
    } else {
        first_fault(hooks, i + 1)
    }
}

/// The message of a failed load.
pub open spec fn load_message(path: Seq<char>, source: Source) -> Option<Seq<char>> {
    match source {
        Source::Unread(e, _) => Some(path + ": "@ + e@),
        Source::Unparsed(e) => Some(path + ": "@ + e@),
        Source::Blank => None,
        Source::Parsed(c) => match first_fault(c.hooks@, 0) {
            Some(i) => Some(path + ": hooks["@ + numeral(i as nat) + "]: "@ + c.hooks@[i].fault()->0),
            None => None,
        },
    }
}

/// A hook list with every metric name made canonical.
pub open spec fn canonical_hooks(after: Seq<Hook>, before: Seq<Hook>) -> bool {
    after.len() == before.len() && forall|i: int|
        0 <= i < before.len() ==> (#[trigger] after[i]).same_but_metric(before[i]) && Some(after[i].metric@)
            == before[i].canon()
}

/// The hooks with their metric names made canonical, or what is wrong with the
/// first that has a fault.
fn check_hooks(path: &str, hooks: Vec<Hook>) -> (r: Result<Vec<Hook>, String>)
    ensures
        match r {
            Ok(checked) => first_fault(hooks@, 0) is None && canonical_hooks(checked@, hooks@) && forall|k: int|
                0 <= k < checked@.len() ==> (#[trigger] checked@[k]).has_threshold(),
            Err(m) => first_fault(hooks@, 0) matches Some(i) && m@ == path@ + ": hooks["@ + numeral(i as nat) + "]: "@
                + hooks@[i].fault()->0,
        },
{
    let ghost before = hooks@;
    let mut rest = hooks;
    let mut checked: Vec<Hook> = Vec::new();
    let n: usize = rest.len();
    let mut i: usize = 0;
    while i < n
        invariant
            i <= n,
            n == before.len(),
            before == hooks@,
            rest@ == before.skip(i as int),
            checked@.len() == i,
            forall|k: int|
                0 <= k < i ==> (#[trigger] checked@[k]).same_but_metric(before[k]) && Some(checked@[k].metric@)
                    == before[k].canon() && checked@[k].has_threshold(),
            first_fault(before, 0) == first_fault(before, i as int),
        decreases n - i,
    {
        let mut h = rest.remove(0);
        proof {
            assert(h == before[i as int]);
            assert(before.skip(i as int).remove(0) =~= before.skip(i + 1));
        }
        match h.validate() {
            Ok(_) => {
                checked.push(h);
            },
            Err(e) => {
                let mut msg = path.to_owned();
                msg.append(": hooks[");
                msg.append(numeral_of(i as u64).as_str());
                msg.append("]: ");
                msg.append(e.as_str());
                proof {
                    assert(first_fault(before, 0) == Some(i as int));
                }
                return Err(msg);
            },
        }
        i = i + 1;
    }
    Ok(checked)
}

/// The config of a file at `path`. Hooks are checked and their metric names
/// made canonical; a blank file stands for the defaults. A missing file is a
/// `NotFound` error.
pub fn load(path: &str, source: Source) -> (r: Result<Config, LoadError>)
    ensures
        r is Err <==> load_message(path@, source) is Some,
        r matches Err(e) ==> Some(e.msg@) == load_message(path@, source) && (e.kind == ErrorKindTag::NotFound <==> (
        source matches Source::Unread(_, missing) && missing)),
        r matches Ok(c) ==> match source {
            Source::Parsed(p) => c.same_sections(p) && canonical_hooks(c.hooks@, p.hooks@) && c.hooks_have_thresholds(),
            _ => c.is_default(),
        },
{
    match source {
        Source::Unread(e, missing) => {
            let kind = if missing {
                ErrorKindTag::NotFound
            } else {
                ErrorKindTag::Other
            };
            Err(LoadError { msg: joined3(path, ": ", e.as_str()), kind })
        },
        Source::Unparsed(e) => Err(LoadError { msg: joined3(path, ": ", e.as_str()), kind: ErrorKindTag::Other }),
        Source::Blank => Ok(Config::default()),
        Source::Parsed(c) => {
            let mut cfg = c;
            let mut hooks: Vec<Hook> = Vec::new();
            std::mem::swap(&mut hooks, &mut cfg.hooks);
            match check_hooks(path, hooks) {
                Ok(checked) => {
                    cfg.hooks = checked;
                    Ok(cfg)
                },
                Err(msg) => Err(LoadError { msg, kind: ErrorKindTag::Other }),
            }
        },
    }
}

/// What to do about the config at the default path.
pub struct DefaultLoad {
    /// The config, or why there is none.
    pub config: Result<Config, String>,
    /// Whether to write the documented default file.
    pub write_default: bool,
}

/// The config from the default path: the defaults where no path can be told or
/// the file is missing, in which case the documented file is to be written.
pub fn load_default(found: Option<Result<Config, LoadError>>) -> (r: DefaultLoad)
    ensures
        r.write_default == (found matches Some(Err(e)) && e.kind == ErrorKindTag::NotFound),
        match found {
            None => r.config matches Ok(c) && c.is_default(),
            Some(Ok(c)) => r.config == Ok::<Config, String>(c),
            Some(Err(e)) => if e.kind == ErrorKindTag::NotFound {
                r.config matches Ok(c) && c.is_default()
            } else {
                r.config == Err::<Config, String>(e.msg)
            },
        },
{
    match found {
        None => DefaultLoad { config: Ok(Config::default()), write_default: false },
        Some(Ok(c)) => DefaultLoad { config: Ok(c), write_default: false },
        Some(Err(e)) => if e.kind == ErrorKindTag::NotFound {
            DefaultLoad { config: Ok(Config::default()), write_default: true }
        } else {
            DefaultLoad { config: Err(e.msg), write_default: false }
        },
    }
}

/// The view preferences remembered between runs.
#[derive(Debug, Clone, Default)]
pub struct State {
    /// `cpu`, `mem` or `gpu`.
    pub sort: String,
    pub sort_asc: bool,
    pub tree: bool,
    pub mine: bool,
    pub cores: bool,
    pub history: bool,
    pub interval: i64,
}

/// View preferences as plain values.
#[verifier::ext_equal]
pub struct Preferences {
    pub sort: Seq<char>,
    pub sort_asc: bool,
    pub tree: bool,
    pub mine: bool,
    pub cores: bool,
    pub history: bool,
    pub interval: i64,
}

impl View for State {
    type V = Preferences;

    open spec fn view(&self) -> Preferences {
        Preferences {
            sort: self.sort@,
            sort_asc: self.sort_asc,
            tree: self.tree,
            mine: self.mine,
            cores: self.cores,
            history: self.history,
            interval: self.interval,
        }
    }
}

/// A hook is accepted where its metric is known, where it has one threshold and
/// not two, where it has a command, and where its times, if any, are durations.
pub proof fn lemma_hook_accepted(h: Hook)
    ensures
        h.fault() is None <==> {
            &&& h.canon() is Some
            &&& h.above is Some || h.below is Some
            &&& h.above is None || h.below is None
            &&& trimmed(h.run@).len() > 0
            &&& h.cooldown@.len() == 0 || duration_nanos(h.cooldown@) is Some
            &&& h.hold_for@.len() == 0 || duration_nanos(h.hold_for@) is Some
        },
{
    reveal(Hook::fault);
}

/// What is told of some hooks is the first that has a fault.
pub proof fn lemma_first_fault(hooks: Seq<Hook>, i: int)
    requires
        0 <= i <= hooks.len(),
    ensures
        match first_fault(hooks, i) {
            Some(k) => i <= k < hooks.len() && hooks[k].fault() is Some && forall|j: int|
                i <= j < k ==> (#[trigger] hooks[j]).fault() is None,
            None => forall|j: int| i <= j < hooks.len() ==> (#[trigger] hooks[j]).fault() is None,
        },
    decreases hooks.len() - i,
{
    if i < hooks.len() && hooks[i].fault() is None {
        lemma_first_fault(hooks, i + 1);
    }
}

/// The units of time: a number of them in seconds, up to what rounding moves.
pub proof fn lemma_units_of_time(n: Num)
    requires
        n.finite(),
        !n.negative(),
        n.value() * 1_000_000_000 as real >= 1 as real,
        n.value() <= 0x1000_0000_0000_0000 as real,
    ensures
        ({
            let secs = |u: Seq<char>| in_seconds(n, u)->0.value();
            let x = n.value();
            &&& in_seconds(n, "s"@) == Some(n)
            &&& in_seconds(n, "m"@) is Some && within(secs("m"@), x * 60 as real, 4 as real)
            &&& in_seconds(n, "h"@) is Some && within(secs("h"@), x * 3600 as real, 4 as real)
            &&& in_seconds(n, "ms"@) is Some && within(secs("ms"@), x / 1_000 as real, 4 as real)
            &&& in_seconds(n, "us"@) is Some && within(secs("us"@), x / 1_000_000 as real, 4 as real)
            &&& in_seconds(n, "µs"@) is Some && within(secs("µs"@), x / 1_000_000 as real, 4 as real)
            &&& in_seconds(n, "ns"@) is Some && within(secs("ns"@), x / 1_000_000_000 as real, 4 as real)
        }),
{
    reveal_strlit("s");
    reveal_strlit("m");
    reveal_strlit("h");
    reveal_strlit("ms");
    reveal_strlit("us");
    reveal_strlit("µs");
    reveal_strlit("ns");
    assert("s"@[0] == 's' && "m"@[0] == 'm' && "h"@[0] == 'h' && "ms"@[0] == 'm' && "us"@[0] == 'u' && "µs"@[0] == 'µ'
        && "ns"@[0] == 'n');
    assert("s"@.len() == 1 && "m"@.len() == 1 && "h"@.len() == 1 && "ms"@.len() == 2 && "us"@.len() == 2 && "µs"@.len() == 2
        && "ns"@.len() == 2);
    lemma_scaled_time(n, 60);
    lemma_scaled_time(n, 3600);
    lemma_scaled_time(n, 1_000);
    lemma_scaled_time(n, 1_000_000);
    lemma_scaled_time(n, 1_000_000_000);
    assert(in_seconds(n, "s"@) == Some(n));
    assert(in_seconds(n, "m"@) == Some(n.product(Num::of(60))));
    assert(in_seconds(n, "h"@) == Some(n.product(Num::of(3600))));
    assert(in_seconds(n, "ms"@) == Some(n.quotient(Num::of(1_000))));
    assert(in_seconds(n, "us"@) == Some(n.quotient(Num::of(1_000_000))));
    assert(in_seconds(n, "µs"@) == Some(n.quotient(Num::of(1_000_000))));
    assert(in_seconds(n, "ns"@) == Some(n.quotient(Num::of(1_000_000_000))));
}

proof fn lemma_scaled_time(n: Num, k: nat)
    requires
        n.finite(),
        !n.negative(),
        n.value() * 1_000_000_000 as real >= 1 as real,
        n.value() <= 0x1000_0000_0000_0000 as real,
        1 <= k <= 1_000_000_000,
    ensures
        within(n.product(Num::of(k)).value(), n.value() * k as real, 4 as real),
        within(n.quotient(Num::of(k)).value(), n.value() / k as real, 4 as real),
{
    let x = n.value();
    let y = k as real;
    lemma_of_within(k);
    lemma_vast();
    assert(size(x - x) <= x * (0 as real * grain()));
    let h = 0x1_0000_0000_0000_0000 as real;
    let q = x / y;
    let r = x * y;
    assert(q * h >= 1 as real && q <= x && r * h >= 1 as real && r <= h * h / 0x1_0000_0000 as real) by (nonlinear_arith)
        requires
            q == x / y,
            r == x * y,
            h == 0x1_0000_0000_0000_0000 as real,
            x * 1_000_000_000 as real >= 1 as real,
            x <= 0x1000_0000_0000_0000 as real,
            y >= 1 as real,
            y <= 1_000_000_000 as real,
    {
        assert(q * y == x);
        assert(q > 0 as real);
        assert(q * y >= q);
        assert(q * y <= q * 1_000_000_000 as real);
        assert(q * 1_000_000_000 as real * 1_000_000_000 as real >= 1 as real);
        assert(x * y >= x);
        assert(x * y <= 0x1000_0000_0000_0000 as real * 1_000_000_000 as real);
    }
    assert(q * h * h >= 1 as real);
    assert(r * h * h >= 1 as real);
    crate::metrics::lemma_enough(q);
    crate::metrics::lemma_enough(r);
    lemma_quotient_within(n, Num::of(k), x, y, 0 as real, 0 as real);
    lemma_product_within(n, Num::of(k), x, y, 0 as real, 0 as real);
}

} // verus!
