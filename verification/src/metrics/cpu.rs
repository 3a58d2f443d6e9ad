//! Per-core and aggregate CPU utilisation: from the text of `/proc/stat` (with
//! the full usr/sys/iow breakdown) plus sysfs frequency and temperature, or
//! from totals sampled elsewhere.

use crate::chars::texts;
use crate::num::read::{is_digit_char, only_digits, read_number};
use crate::num::value::{
    grain, lemma_difference_value, lemma_of_arith, lemma_of_value, lemma_of_within, lemma_product_within,
    lemma_quotient_within, lemma_round_off, lemma_value_units, lemma_vast, lemma_zero_stays, off_by, within,
};
use crate::num::Num;
use crate::scan::{begins, lines, parse_u64, split_lines, split_words, starts, trim, trimmed, unsigned_value, words};
use vstd::prelude::*;

verus! {

/// Cumulative CPU time in ticks for one CPU. Only ratios between samples
/// matter, so the unit is irrelevant.
#[derive(Clone, Copy, Debug, PartialEq, Eq, Structural)]
pub struct CpuTimes {
    pub user: Num,
    pub nice: Num,
    pub system: Num,
    pub idle: Num,
    pub iowait: Num,
    pub irq: Num,
    pub softirq: Num,
    pub steal: Num,
}

/// A percentage breakdown of how a CPU spent the last interval. Where only the
/// utilisation is sampled, all but `total` stay zero.
#[derive(Clone, Copy, Debug, PartialEq, Eq, Structural)]
pub struct CpuUsage {
    pub user: Num,
    pub nice: Num,
    pub system: Num,
    pub idle: Num,
    pub iowait: Num,
    pub irq: Num,
    pub softirq: Num,
    pub steal: Num,
    /// 100 - idle, clamped to [0,100]
    pub total: Num,
}

impl CpuTimes {
    /// All time counted.
    pub open spec fn sum(self) -> Num {
        self.user.sum(self.nice).sum(self.system).sum(self.idle).sum(self.iowait).sum(self.irq).sum(self.softirq).sum(
            self.steal,
        )
    }

    fn total(&self) -> (r: Num)
        ensures
            r == self.sum(),
    {
        self.user.plus(self.nice).plus(self.system).plus(self.idle).plus(self.iowait).plus(self.irq).plus(
            self.softirq,
        ).plus(self.steal)
    }
}

impl CpuUsage {
    pub open spec fn spec_zero() -> CpuUsage {
        let z = Num::spec_zero();
        CpuUsage { user: z, nice: z, system: z, idle: z, iowait: z, irq: z, softirq: z, steal: z, total: z }
    }

    /// Only the utilisation known.
    pub open spec fn only_total(total: Num) -> CpuUsage {
        CpuUsage { total, ..CpuUsage::spec_zero() }
    }

    /// No time spent.
    pub fn zero() -> (r: CpuUsage)
        ensures
            r == CpuUsage::spec_zero(),
    {
        let z = Num::zero();
        CpuUsage { user: z, nice: z, system: z, idle: z, iowait: z, irq: z, softirq: z, steal: z, total: z }
    }
}

/// The usage between two samples.
pub open spec fn usage_between(prev: CpuTimes, curr: CpuTimes) -> CpuUsage {
    let spent = curr.sum().difference(prev.sum());
    if Num::spec_zero().at_least(spent) {
        CpuUsage::spec_zero()
    } else {
        let scale = Num::of(100).quotient(spent);
        let idle = curr.idle.sum(curr.iowait).difference(prev.idle.sum(prev.iowait)).product(scale);
        CpuUsage {
            user: curr.user.difference(prev.user).product(scale),
            nice: curr.nice.difference(prev.nice).product(scale),
            system: curr.system.difference(prev.system).product(scale),
            idle,
            iowait: curr.iowait.difference(prev.iowait).product(scale),
            irq: curr.irq.difference(prev.irq).product(scale),
            softirq: curr.softirq.difference(prev.softirq).product(scale),
            steal: curr.steal.difference(prev.steal).product(scale),
            total: Num::of(100).difference(idle).bounded(Num::spec_zero(), Num::of(100)),
        }
    }
}

/// The usage between two samples.
pub fn compute_usage(prev: CpuTimes, curr: CpuTimes) -> (r: CpuUsage)
    ensures
        r == usage_between(prev, curr),
{
    let spent = curr.total().minus(prev.total());
    if Num::zero().ge(spent) {
        return CpuUsage::zero();
    }
    let scale = Num::from_u64(100).over(spent);
    let idle = curr.idle.plus(curr.iowait).minus(prev.idle.plus(prev.iowait)).times(scale);
    CpuUsage {
        user: curr.user.minus(prev.user).times(scale),
        nice: curr.nice.minus(prev.nice).times(scale),
        system: curr.system.minus(prev.system).times(scale),
        idle,
        iowait: curr.iowait.minus(prev.iowait).times(scale),
        irq: curr.irq.minus(prev.irq).times(scale),
        softirq: curr.softirq.minus(prev.softirq).times(scale),
        steal: curr.steal.minus(prev.steal).times(scale),
        total: Num::from_u64(100).minus(idle).clamped(Num::zero(), Num::from_u64(100)),
    }
}

/// The number that the `i`-th word spells; zero where it spells none.
pub open spec fn word_number(w: Seq<Seq<char>>, i: int) -> Num {
    if 0 <= i < w.len() {
        match read_number(w[i]) {
            Some(n) => n,
            None => Num::spec_zero(),
        }
    } else {
        Num::spec_zero()
    }
}

/// The number that the `i`-th word spells; zero where it spells none.
pub fn number_at(w: &Vec<String>, i: usize) -> (r: Num)
    ensures
        r == word_number(texts(w@), i as int),
{
    if i < w.len() {
        match Num::parse(w[i].as_str()) {
            Some(n) => n,
            None => Num::zero(),
        }
    } else {
        Num::zero()
    }
}

/// A count without the share that is counted elsewhere too.
pub open spec fn without(n: Num, share: Num) -> Num {
    if n.at_least(share) {
        n.difference(share)
    } else {
        n
    }
}

fn less_share(n: Num, share: Num) -> (r: Num)
    ensures
        r == without(n, share),
{
    if n.ge(share) {
        n.minus(share)
    } else {
        n
    }
}

/// Whether a line holds the times of all CPUs or of one.
pub open spec fn is_cpu_line(line: Seq<char>) -> bool {
    begins(line, "cpu"@) && words(line).len() > 0 && only_digits(words(line)[0].skip(3))
}

/// The times on a line. Guest time is counted inside user and nice, so the
/// overlap is removed.
pub open spec fn line_times(line: Seq<char>) -> CpuTimes {
    let w = words(line);
    CpuTimes {
        user: without(word_number(w, 1), word_number(w, 9)),
        nice: without(word_number(w, 2), word_number(w, 10)),
        system: word_number(w, 3),
        idle: word_number(w, 4),
        iowait: word_number(w, 5),
        irq: word_number(w, 6),
        softirq: word_number(w, 7),
        steal: word_number(w, 8),
    }
}

/// The times of the CPU lines among some lines, in their order.
pub open spec fn cpu_lines(all: Seq<Seq<char>>) -> Seq<CpuTimes>
    decreases all.len(),
{
    if all.len() == 0 {
        seq![]
    } else {
        let before = cpu_lines(all.drop_last());
        if is_cpu_line(all.last()) {
            before.push(line_times(all.last()))
        } else {
            before
        }
    }
}

/// The samples in the text of `/proc/stat`: the aggregate first, then cores.
pub open spec fn stat_times(data: Seq<char>) -> Seq<CpuTimes> {
    cpu_lines(lines(data))
}

/// Whether the characters from the fourth on are digits.
fn digits_after_label(word: &str) -> (r: bool)
    requires
        word@.len() >= 3,
    ensures
        r == only_digits(word@.skip(3)),
{
    let c: Vec<char> = crate::chars::chars_of(word);
    let mut i: usize = 3;
    while i < c.len()
        invariant
            3 <= i <= c@.len(),
            c@ == word@,
            forall|j: int| 3 <= j < i ==> crate::num::read::is_digit(c@[j]),
        decreases c@.len() - i,
    {
        if !is_digit_char(c[i]) {
            proof {
                assert(c@.skip(3)[i - 3] == c@[i as int]);
            }
            return false;
        }
        i = i + 1;
    }
    true
}

/// The first word of a line that starts with a word is at least as long.
proof fn lemma_first_word(line: Seq<char>)
    requires
        begins(line, "cpu"@),
    ensures
        words(line).len() > 0,
        words(line)[0].len() >= 3,
{
    reveal_strlit("cpu");
    reveal_with_fuel(crate::scan::words_after, 4);
    let head = line.subrange(0, 3);
    assert(head[0] == line[0] && head[1] == line[1] && head[2] == line[2]);
    let rest = line.skip(1).skip(1).skip(1);
    let word = seq![].push(line[0]).push(line.skip(1)[0]).push(line.skip(1).skip(1)[0]);
    lemma_word_grows(rest, word);
}

proof fn lemma_word_grows(s: Seq<char>, word: Seq<char>)
    requires
        word.len() > 0,
    ensures
        crate::scan::words_after(s, word).len() > 0,
        crate::scan::words_after(s, word)[0].len() >= word.len(),
    decreases s.len(),
{
    if s.len() > 0 && !crate::scan::white(s[0]) {
        lemma_word_grows(s.skip(1), word.push(s[0]));
    }
}

/// Reads the samples in the text of `/proc/stat`.
pub fn parse_cpu_times(data: &str) -> (r: Result<Vec<CpuTimes>, String>)
    ensures
        match r {
            Ok(v) => v@ == stat_times(data@) && v@.len() > 0,
            Err(m) => stat_times(data@).len() == 0 && m@ == "no cpu lines in /proc/stat"@,
        },
{
    let all: Vec<String> = split_lines(data);
    let ghost ls = texts(all@);
    let mut out: Vec<CpuTimes> = Vec::new();
    let mut i: usize = 0;
    proof {
        assert(ls.take(0).len() == 0);
        assert(out@ =~= cpu_lines(ls.take(0)));
    }
    while i < all.len()
        invariant
            i <= all@.len(),
            ls == texts(all@),
            out@ == cpu_lines(ls.take(i as int)),
        decreases all@.len() - i,
    {
        proof {
            assert(ls.take(i + 1).drop_last() =~= ls.take(i as int));
            assert(ls.take(i + 1).last() == all@[i as int]@);
        }
        let line = all[i].as_str();
        if starts(line, "cpu") {
            let w: Vec<String> = split_words(line);
            proof {
                lemma_first_word(line@);
                assert(texts(w@)[0] == w@[0]@);
            }
            if digits_after_label(w[0].as_str()) {
                out.push(
                    CpuTimes {
                        user: less_share(number_at(&w, 1), number_at(&w, 9)),
                        nice: less_share(number_at(&w, 2), number_at(&w, 10)),
                        system: number_at(&w, 3),
                        idle: number_at(&w, 4),
                        iowait: number_at(&w, 5),
                        irq: number_at(&w, 6),
                        softirq: number_at(&w, 7),
                        steal: number_at(&w, 8),
                    },
                );
            }
        }
        i = i + 1;
    }
    proof {
        assert(ls.take(all@.len() as int) =~= ls);
    }
    if out.len() == 0 {
        return Err("no cpu lines in /proc/stat".to_owned());
    }
    Ok(out)
}

/// A reading in thousandths.
pub open spec fn thousandths(n: nat) -> Num {
    Num::of(n).quotient(Num::of(1000))
}

/// The integer that a file holds, where it could be read.
pub open spec fn file_count(f: Option<String>) -> Option<nat> {
    match f {
        Some(s) => unsigned_value(trimmed(s@), u64::MAX as nat),
        None => None,
    }
}

/// A core's frequency in MHz from its file, which counts kHz.
pub open spec fn file_mhz(f: Option<String>) -> Num {
    match file_count(f) {
        Some(khz) => thousandths(khz),
        None => Num::spec_zero(),
    }
}

/// The first positive temperature among the sensors' files, which count
/// thousandths of a degree; zero where there is none.
pub open spec fn first_temp(files: Seq<Option<String>>, i: int) -> Num
    decreases files.len() - i,
{
    if i < 0 || i >= files.len() {
        Num::spec_zero()
    } else {
        match file_count(files[i]) {
            Some(v) => if v > 0 {
                thousandths(v)
            } else {
                first_temp(files, i + 1)
            },
            None => first_temp(files, i + 1),
        }
    }
}

fn read_count(f: &Option<String>) -> (r: Option<u64>)
    ensures
        match r {
            Some(v) => file_count(*f) == Some(v as nat),
            None => file_count(*f) is None,
        },
{
    match f {
        Some(s) => parse_u64(trim(s.as_str()).as_str()),
        None => None,
    }
}

fn read_mhz(f: &Option<String>) -> (r: Num)
    ensures
        r == file_mhz(*f),
{
    match read_count(f) {
        Some(khz) => Num::from_u64(khz).over(Num::from_u64(1000)),
        None => Num::zero(),
    }
}

fn read_temp(files: &Vec<Option<String>>) -> (r: Num)
    ensures
        r == first_temp(files@, 0),
{
    let mut i: usize = 0;
    while i < files.len()
        invariant
            i <= files@.len(),
            first_temp(files@, 0) == first_temp(files@, i as int),
        decreases files@.len() - i,
    {
        if let Some(v) = read_count(&files[i]) {
            if v > 0 {
                return Num::from_u64(v).over(Num::from_u64(1000));
            }
        }
        i = i + 1;
    }
    Num::zero()
}

/// Per-core and aggregate utilisation plus, where available, frequency and
/// temperature.
pub struct Cpu {
    pub count: usize,
    /// The aggregate first, then individual cores.
    pub usage: Vec<CpuUsage>,
    /// MHz, per core; zero when unavailable.
    pub freq: Vec<Num>,
    /// Celsius; zero when unavailable.
    pub temp: Num,
    pub curr: Vec<CpuTimes>,
}

/// The number of cores behind a number of samples.
pub open spec fn core_count(samples: nat) -> nat {
    if samples <= 2 {
        1
    } else {
        (samples - 1) as nat
    }
}

/// The usages after a new sample: those that both samples hold are computed
/// anew.
pub open spec fn usages_after(usage: Seq<CpuUsage>, prev: Seq<CpuTimes>, curr: Seq<CpuTimes>) -> Seq<CpuUsage> {
    let n = if prev.len() < curr.len() {
        prev.len()
    } else {
        curr.len()
    };
    let len = if usage.len() < n {
        n
    } else {
        usage.len()
    };
    Seq::new(
        len,
        |i: int|
            if i < n {
                usage_between(prev[i], curr[i])
            } else {
                usage[i]
            },
    )
}

/// The usages after a sample of totals: the aggregate, then each core.
pub open spec fn usages_of_totals(usage: Seq<CpuUsage>, all: Num, cores: Seq<Num>) -> Seq<CpuUsage> {
    let len = if usage.len() < cores.len() + 1 {
        cores.len() + 1
    } else {
        usage.len()
    };
    Seq::new(
        len,
        |i: int|
            if i == 0 {
                CpuUsage::only_total(all)
            } else if i <= cores.len() {
                CpuUsage::only_total(cores[i - 1])
            } else {
                usage[i]
            },
    )
}

fn zero_usages(n: usize) -> (r: Vec<CpuUsage>)
    ensures
        r@ == Seq::new(n as nat, |i: int| CpuUsage::spec_zero()),
{
    let mut out: Vec<CpuUsage> = Vec::new();
    while out.len() < n
        invariant
            out@.len() <= n,
            forall|i: int| 0 <= i < out@.len() ==> out@[i] == CpuUsage::spec_zero(),
        decreases n - out@.len(),
    {
        out.push(CpuUsage::zero());
    }
    proof {
        assert(out@ =~= Seq::new(n as nat, |i: int| CpuUsage::spec_zero()));
    }
    out
}

fn zero_freqs(n: usize) -> (r: Vec<Num>)
    ensures
        r@.len() == n,
        forall|i: int| 0 <= i < n ==> r@[i] == Num::spec_zero(),
{
    let mut out: Vec<Num> = Vec::new();
    while out.len() < n
        invariant
            out@.len() <= n,
            forall|i: int| 0 <= i < out@.len() ==> out@[i] == Num::spec_zero(),
        decreases n - out@.len(),
    {
        out.push(Num::zero());
    }
    out
}

impl Cpu {
    /// There is a frequency for each core and at least one core.
    pub open spec fn wf(&self) -> bool {
        self.count >= 1 && self.freq@.len() == self.count
    }

    /// The aggregate usage.
    pub open spec fn overall(&self) -> CpuUsage {
        if self.usage@.len() > 0 {
            self.usage@[0]
        } else {
            CpuUsage::spec_zero()
        }
    }

    /// The usage of a core.
    pub open spec fn of_core(&self, i: int) -> CpuUsage {
        if 0 <= i && i + 1 < self.usage@.len() {
            self.usage@[i + 1]
        } else {
            CpuUsage::spec_zero()
        }
    }

    pub fn aggregate(&self) -> (r: CpuUsage)
        ensures
            r == self.overall(),
    {
        if self.usage.len() > 0 {
            self.usage[0]
        } else {
            CpuUsage::zero()
        }
    }

    pub fn core_usage(&self, i: usize) -> (r: CpuUsage)
        ensures
            r == self.of_core(i as int),
    {
        if i < self.usage.len() && i + 1 < self.usage.len() {
            self.usage[i + 1]
        } else {
            CpuUsage::zero()
        }
    }

    /// A baseline from the text of `/proc/stat`, so the first update produces
    /// a delta.
    pub fn new(stat: &str) -> (r: Result<Cpu, String>)
        ensures
            match r {
                Ok(c) => {
                    &&& stat_times(stat@).len() > 0
                    &&& c.wf()
                    &&& c.curr@ == stat_times(stat@)
                    &&& c.count == core_count(stat_times(stat@).len())
                    &&& c.usage@ == Seq::new(stat_times(stat@).len(), |i: int| CpuUsage::spec_zero())
                    &&& forall|i: int| 0 <= i < c.count ==> c.freq@[i] == Num::spec_zero()
                    &&& c.temp == Num::spec_zero()
                },
                Err(m) => stat_times(stat@).len() == 0 && m@ == "no cpu lines in /proc/stat"@,
            },
    {
        let curr = match parse_cpu_times(stat) {
            Ok(t) => t,
            Err(e) => return Err(e),
        };
        let count: usize = if curr.len() <= 2 {
            1
        } else {
            curr.len() - 1
        };
        Ok(Cpu { count, usage: zero_usages(curr.len()), freq: zero_freqs(count), temp: Num::zero(), curr })
    }

    /// This is what stood before with fresh readings taken in.
    pub open spec fn took_in(
        &self,
        before: Cpu,
        stat: Seq<char>,
        freqs: Seq<Option<String>>,
        temps: Seq<Option<String>>,
    ) -> bool {
        &&& self.count == before.count
        &&& stat_times(stat).len() == 0 ==> *self == before
        &&& stat_times(stat).len() > 0 ==> {
            &&& self.curr@ == stat_times(stat)
            &&& self.usage@ == usages_after(before.usage@, before.curr@, stat_times(stat))
            &&& self.temp == first_temp(temps, 0)
            &&& forall|i: int|
                0 <= i < before.count ==> #[trigger] self.freq@[i] == (if i < freqs.len() {
                    file_mhz(freqs[i])
                } else {
                    Num::spec_zero()
                })
        }
    }

    /// Recomputes usage, frequency and temperature from fresh readings: the
    /// text of `/proc/stat`, each core's frequency file and the temperature
    /// sensors' files in their order of preference. A text without CPU lines
    /// changes nothing.
    pub fn update(&mut self, stat: &str, freqs: &Vec<Option<String>>, temps: &Vec<Option<String>>)
        requires
            old(self).wf(),
        ensures
            final(self).wf(),
            final(self).took_in(*old(self), stat@, freqs@, temps@),
    {
        let curr = match parse_cpu_times(stat) {
            Ok(t) => t,
            Err(_) => return,
        };
        let ghost usage0 = self.usage@;
        let ghost prev0 = self.curr@;
        let mut prev: Vec<CpuTimes> = curr;
        std::mem::swap(&mut prev, &mut self.curr);
        let n: usize = if prev.len() < self.curr.len() {
            prev.len()
        } else {
            self.curr.len()
        };
        if self.usage.len() < n {
            self.usage = zero_usages(n);
        }
        let mut i: usize = 0;
        while i < n
            invariant
                i <= n,
                n <= prev@.len(),
                n <= self.curr@.len(),
                n <= self.usage@.len(),
                self.wf(),
                self.count == old(self).count,
                prev@ == prev0,
                self.curr@ == stat_times(stat@),
                self.usage@.len() == usages_after(usage0, prev0, self.curr@).len(),
                forall|k: int| 0 <= k < i ==> self.usage@[k] == usage_between(prev0[k], self.curr@[k]),
                forall|k: int| n <= k < self.usage@.len() ==> self.usage@[k] == usage0[k],
            decreases n - i,
        {
            let u = compute_usage(prev[i], self.curr[i]);
            self.usage.set(i, u);
            i = i + 1;
        }
        proof {
            assert(self.usage@ =~= usages_after(usage0, prev0, self.curr@));
        }
        let mut k: usize = 0;
        while k < self.count
            invariant
                k <= self.count,
                self.wf(),
                self.count == old(self).count,
                self.curr@ == stat_times(stat@),
                self.usage@ == usages_after(usage0, prev0, self.curr@),
                forall|j: int|
                    0 <= j < k ==> #[trigger] self.freq@[j] == (if j < freqs@.len() {
                        file_mhz(freqs@[j])
                    } else {
                        Num::spec_zero()
                    }),
            decreases self.count - k,
        {
            let f = if k < freqs.len() {
                read_mhz(&freqs[k])
            } else {
                Num::zero()
            };
            self.freq.set(k, f);
            k = k + 1;
        }
        self.temp = read_temp(temps);
    }

    /// A collector for totals sampled elsewhere, over `cores` cores.
    pub fn for_totals(cores: usize) -> (r: Cpu)
        requires
            cores < usize::MAX,
        ensures
            r.wf(),
            r.count == (if cores == 0 {
                1
            } else {
                cores as int
            }),
            r.usage@ == Seq::new((r.count + 1) as nat, |i: int| CpuUsage::spec_zero()),
            forall|i: int| 0 <= i < r.count ==> r.freq@[i] == Num::spec_zero(),
            r.temp == Num::spec_zero(),
            r.curr@.len() == 0,
    {
        let count: usize = if cores == 0 {
            1
        } else {
            cores
        };
        Cpu { count, usage: zero_usages(count + 1), freq: zero_freqs(count), temp: Num::zero(), curr: Vec::new() }
    }

    /// This is what stood before with utilisation sampled elsewhere.
    pub open spec fn took_totals(&self, before: Cpu, all: Num, cores: Seq<Num>) -> bool {
        &&& self.usage@ == usages_of_totals(before.usage@, all, cores)
        &&& self.count == before.count
        &&& self.freq == before.freq
        &&& self.temp == before.temp
        &&& self.curr == before.curr
    }

    /// Takes over utilisation sampled elsewhere: of all cores and of each.
    pub fn update_totals(&mut self, all: Num, cores: &Vec<Num>)
        requires
            old(self).wf(),
            cores@.len() < usize::MAX,
        ensures
            final(self).wf(),
            final(self).took_totals(*old(self), all, cores@),
    {
        let ghost usage0 = self.usage@;
        if self.usage.len() < cores.len() + 1 {
            self.usage = zero_usages(cores.len() + 1);
        }
        let zero = CpuUsage::zero();
        self.usage.set(0, CpuUsage { total: all, ..zero });
        let mut i: usize = 0;
        while i < cores.len()
            invariant
                i <= cores@.len(),
                cores@.len() < usize::MAX,
                zero == CpuUsage::spec_zero(),
                self.usage@.len() == usages_of_totals(usage0, all, cores@).len(),
                self.usage@[0] == CpuUsage::only_total(all),
                forall|k: int| 0 < k <= i ==> self.usage@[k] == CpuUsage::only_total(cores@[k - 1]),
                forall|k: int| cores@.len() < k < self.usage@.len() ==> self.usage@[k] == usage0[k],
                self.wf(),
                self.count == old(self).count,
                self.freq == old(self).freq,
                self.temp == old(self).temp,
                self.curr == old(self).curr,
            decreases cores@.len() - i,
        {
            self.usage.set(i + 1, CpuUsage { total: cores[i], ..zero });
            i = i + 1;
        }
        proof {
            assert(self.usage@ =~= usages_of_totals(usage0, all, cores@));
        }
    }
}

/// A usage's total lies between 0 and 100 whenever it is a number.
pub proof fn lemma_total_bounded(prev: CpuTimes, curr: CpuTimes)
    ensures
        ({
            let t = usage_between(prev, curr).total;
            t.nan() || (t.at_least(Num::spec_zero()) && Num::of(100).at_least(t))
        }),
{
    crate::num::arith::lemma_of_range(100);
}

/// Times given in whole ticks: user, nice, system, idle, iowait, irq, softirq
/// and steal.
pub open spec fn in_ticks(c: Seq<nat>) -> CpuTimes {
    CpuTimes {
        user: Num::of(c[0]),
        nice: Num::of(c[1]),
        system: Num::of(c[2]),
        idle: Num::of(c[3]),
        iowait: Num::of(c[4]),
        irq: Num::of(c[5]),
        softirq: Num::of(c[6]),
        steal: Num::of(c[7]),
    }
}

/// All ticks counted.
pub open spec fn ticks_in_all(c: Seq<nat>) -> nat {
    c[0] + c[1] + c[2] + c[3] + c[4] + c[5] + c[6] + c[7]
}

proof fn lemma_ticks_sum(c: Seq<nat>)
    requires
        c.len() == 8,
        ticks_in_all(c) <= 0x20_0000_0000_0000,
    ensures
        in_ticks(c).sum() == Num::of(ticks_in_all(c)),
{
    lemma_of_arith(c[0], c[1]);
    lemma_of_arith(c[0] + c[1], c[2]);
    lemma_of_arith(c[0] + c[1] + c[2], c[3]);
    lemma_of_arith(c[0] + c[1] + c[2] + c[3], c[4]);
    lemma_of_arith(c[0] + c[1] + c[2] + c[3] + c[4], c[5]);
    lemma_of_arith(c[0] + c[1] + c[2] + c[3] + c[4] + c[5], c[6]);
    lemma_of_arith(c[0] + c[1] + c[2] + c[3] + c[4] + c[5] + c[6], c[7]);
}

/// A part of the ticks spent, in percent.
proof fn lemma_ticks_share(part: nat, spent: nat)
    requires
        part <= spent <= 0x20_0000_0000_0000,
        spent > 0,
    ensures
        ({
            let r = Num::of(part).product(Num::of(100).quotient(Num::of(spent)));
            &&& r.finite()
            &&& !r.negative()
            &&& within(r.value(), part as real / spent as real * 100 as real, 8 as real)
            &&& r.value() <= 200 as real
        }),
{
    lemma_of_within(100);
    lemma_of_within(spent);
    lemma_of_value(spent);
    lemma_value_units(Num::of(spent));
    lemma_vast();
    let (a, b) = (part as real, spent as real);
    let x = 100 as real / b;
    let q = Num::of(100).quotient(Num::of(spent));
    assert(x * 0x1_0000_0000_0000_0000 as real >= 1 as real && x <= 100 as real) by (nonlinear_arith)
        requires
            x == 100 as real / b,
            b >= 1 as real,
            b <= 0x20_0000_0000_0000 as real,
    {
        assert(x * b == 100 as real);
        assert(x > 0 as real);
        assert(x * b >= x);
        assert(x * b <= x * 0x20_0000_0000_0000 as real);
    }
    super::lemma_enough(x);
    lemma_quotient_within(Num::of(100), Num::of(spent), 100 as real, b, 0 as real, 0 as real);
    let y = a / b * 100 as real;
    let r = Num::of(part).product(q);
    if part > 0 {
        lemma_of_within(part);
        assert(a * x == y && y <= 100 as real && y >= x) by (nonlinear_arith)
            requires
                x == 100 as real / b,
                y == a / b * 100 as real,
                a >= 1 as real,
                a <= b,
                b >= 1 as real,
        {
            assert(x * b == 100 as real);
            assert((a / b) * b == a);
            assert((a / b) * 100 as real * b == a * 100 as real);
            assert((a * x) * b == a * 100 as real);
            assert((a * x - y) * b == 0 as real);
            assert(x > 0 as real);
            assert(a * x <= b * x);
        }
        super::lemma_enough(y);
        lemma_product_within(Num::of(part), q, a, x, 0 as real, 4 as real);
        assert(y * (8 as real * grain()) <= 100 as real) by (nonlinear_arith)
            requires
                y <= 100 as real,
                y >= 0 as real,
                grain() == 1 as real / 0x20_0000_0000_0000 as real,
        ;
    } else {
        lemma_zero_stays(q);
        lemma_value_units(Num::spec_zero());
        assert(y == 0 as real && y * (8 as real * grain()) == 0 as real) by (nonlinear_arith)
            requires
                y == 0 as real / b * 100 as real,
                b >= 1 as real,
        ;
    }
}

/// Each figure of a CPU's usage between two samples is its share of the ticks
/// that passed, in percent, and the total is the share that was neither idle
/// nor waiting for I/O; rounding moves them by a few parts in 2^53.
pub proof fn lemma_usage_shares(a: Seq<nat>, b: Seq<nat>)
    requires
        a.len() == 8,
        b.len() == 8,
        forall|i: int| 0 <= i < 8 ==> a[i] <= b[i],
        ticks_in_all(a) < ticks_in_all(b) <= 0x20_0000_0000_0000,
    ensures
        ({
            let u = usage_between(in_ticks(a), in_ticks(b));
            let spent = (ticks_in_all(b) - ticks_in_all(a)) as real;
            let rest = (b[3] - a[3]) + (b[4] - a[4]);
            let few = 8 as real;
            &&& within(u.user.value(), (b[0] - a[0]) as real / spent * 100 as real, few)
            &&& within(u.nice.value(), (b[1] - a[1]) as real / spent * 100 as real, few)
            &&& within(u.system.value(), (b[2] - a[2]) as real / spent * 100 as real, few)
            &&& within(u.idle.value(), rest as real / spent * 100 as real, few)
            &&& within(u.iowait.value(), (b[4] - a[4]) as real / spent * 100 as real, few)
            &&& within(u.irq.value(), (b[5] - a[5]) as real / spent * 100 as real, few)
            &&& within(u.softirq.value(), (b[6] - a[6]) as real / spent * 100 as real, few)
            &&& within(u.steal.value(), (b[7] - a[7]) as real / spent * 100 as real, few)
            &&& off_by(
                u.total.value(),
                (ticks_in_all(b) - ticks_in_all(a) - rest) as real / spent * 100 as real,
                100 as real,
                12 as real,
            )
        }),
{
    lemma_ticks_sum(a);
    lemma_ticks_sum(b);
    let spent = (ticks_in_all(b) - ticks_in_all(a)) as nat;
    lemma_of_arith(spent, ticks_in_all(a));
    lemma_of_value(spent);
    lemma_value_units(Num::of(spent));
    crate::num::arith::lemma_less_is_value_order(Num::spec_zero(), Num::of(spent));
    crate::num::arith::lemma_zero_units(0);
    crate::num::arith::lemma_zero_units(Num::of(spent).mag());
    assert forall|i: int| 0 <= i < 8 implies Num::of(b[i]).difference(Num::of(a[i])) == #[trigger] Num::of(
        (b[i] - a[i]) as nat,
    ) && b[i] - a[i] <= spent by {
        lemma_of_arith((b[i] - a[i]) as nat, a[i]);
    }
    lemma_ticks_share((b[0] - a[0]) as nat, spent);
    lemma_ticks_share((b[1] - a[1]) as nat, spent);
    lemma_ticks_share((b[2] - a[2]) as nat, spent);
    lemma_ticks_share((b[4] - a[4]) as nat, spent);
    lemma_ticks_share((b[5] - a[5]) as nat, spent);
    lemma_ticks_share((b[6] - a[6]) as nat, spent);
    lemma_ticks_share((b[7] - a[7]) as nat, spent);
    let rest = ((b[3] - a[3]) + (b[4] - a[4])) as nat;
    lemma_of_arith(a[3], a[4]);
    lemma_of_arith(b[3], b[4]);
    lemma_of_arith(rest, a[3] + a[4]);
    assert(rest <= spent);
    lemma_ticks_share(rest, spent);
    let u = usage_between(in_ticks(a), in_ticks(b));
    assert(u.user == Num::of((b[0] - a[0]) as nat).product(Num::of(100).quotient(Num::of(spent))));
    assert(u.idle == Num::of(rest).product(Num::of(100).quotient(Num::of(spent))));
    lemma_usage_total(u.idle, rest, spent);
}

/// What is left of a hundred percent.
proof fn lemma_usage_total(idle: Num, rest: nat, spent: nat)
    requires
        rest <= spent,
        spent > 0,
        idle.finite(),
        !idle.negative(),
        idle.value() <= 200 as real,
        within(idle.value(), rest as real / spent as real * 100 as real, 8 as real),
    ensures
        off_by(
            Num::of(100).difference(idle).bounded(Num::spec_zero(), Num::of(100)).value(),
            (spent - rest) as real / spent as real * 100 as real,
            100 as real,
            12 as real,
        ),
{
    lemma_of_value(100);
    lemma_value_units(Num::of(100));
    lemma_value_units(Num::spec_zero());
    lemma_value_units(idle);
    lemma_vast();
    let (a, b) = (rest as real, spent as real);
    let y = a / b * 100 as real;
    let x = (spent - rest) as real / b * 100 as real;
    let e = grain();
    assert(x == 100 as real - y && y >= 0 as real && y <= 100 as real) by (nonlinear_arith)
        requires
            y == a / b * 100 as real,
            x == (b - a) / b * 100 as real,
            a >= 0 as real,
            a <= b,
            b >= 1 as real,
    {
        assert((a / b) * b == a);
        assert(((b - a) / b) * b == b - a);
        assert((a / b) * b <= 1 as real * b);
        assert(((b - a) / b + a / b) * b == 1 as real * b);
    }
    assert(y * (8 as real * e) <= 100 as real * (8 as real * e)) by (nonlinear_arith)
        requires
            y <= 100 as real,
            e > 0 as real,
    ;
    let d = Num::of(100).difference(idle);
    let v = 100 as real - idle.value();
    lemma_difference_value(Num::of(100), idle);
    assert(off_by(v, x, 100 as real, 8 as real));
    super::lemma_enough(100 as real);
    lemma_round_off(d.value(), v, x, 100 as real, 8 as real);
    crate::num::value::lemma_order_value(d, Num::spec_zero());
    crate::num::value::lemma_order_value(Num::of(100), d);
    crate::num::value::lemma_order_value(Num::of(100), Num::spec_zero());
    assert(100 as real * (11 as real * e) <= 100 as real * (12 as real * e)) by (nonlinear_arith)
        requires
            e > 0 as real,
    ;
}

/// The times on a line of `/proc/stat` are its numbers in their order; guest
/// time is taken out of user and nice time, which hold it too.
pub proof fn lemma_line_in_ticks(line: Seq<char>, c: Seq<nat>)
    requires
        c.len() == 10,
        words(line).len() >= 11,
        forall|i: int| 0 <= i < 10 ==> read_number(words(line)[i + 1]) == Some(#[trigger] Num::of(c[i])),
        c[8] <= c[0] <= 0x20_0000_0000_0000,
        c[9] <= c[1] <= 0x20_0000_0000_0000,
    ensures
        line_times(line) == in_ticks(
            seq![(c[0] - c[8]) as nat, (c[1] - c[9]) as nat, c[2], c[3], c[4], c[5], c[6], c[7]],
        ),
{
    lemma_of_arith((c[0] - c[8]) as nat, c[8]);
    lemma_of_arith((c[1] - c[9]) as nat, c[9]);
    lemma_of_ordered(c[8], c[0]);
    lemma_of_ordered(c[9], c[1]);
    assert(forall|i: int| 0 <= i < 10 ==> word_number(words(line), i + 1) == #[trigger] Num::of(c[i]));
}

proof fn lemma_of_ordered(m: nat, n: nat)
    requires
        m <= n <= 0x20_0000_0000_0000,
    ensures
        Num::of(n).at_least(Num::of(m)),
{
    lemma_of_value(m);
    lemma_of_value(n);
    crate::num::value::lemma_order_value(Num::of(n), Num::of(m));
}

/// Readings in thousandths count a thousandth each.
pub proof fn lemma_thousandths(n: nat)
    requires
        n <= u64::MAX,
    ensures
        thousandths(n).finite(),
        within(thousandths(n).value(), n as real / 1000 as real, 7 as real),
{
    lemma_of_value(1000);
    lemma_value_units(Num::of(1000));
    let x = n as real / 1000 as real;
    if n == 0 {
        lemma_zero_stays(Num::of(1000));
        lemma_value_units(Num::spec_zero());
        assert(x * (7 as real * grain()) == 0 as real) by (nonlinear_arith)
            requires
                x == 0 as real,
        ;
    } else {
        lemma_of_within(n);
        lemma_of_within(1000);
        lemma_vast();
        assert(x * 0x1_0000_0000_0000_0000 as real * 0x1_0000_0000_0000_0000 as real >= 1 as real);
        super::lemma_enough(x);
        lemma_quotient_within(Num::of(n), Num::of(1000), n as real, 1000 as real, 3 as real, 0 as real);
    }
}

/// The temperature is that of the first sensor that tells more than nothing, in
/// thousandths of a degree, and nothing where none does.
pub proof fn lemma_first_sensor(files: Seq<Option<String>>, k: int, v: nat)
    requires
        0 <= k < files.len(),
        file_count(files[k]) == Some(v),
        v > 0,
        forall|j: int| 0 <= j < k ==> file_count(#[trigger] files[j]) is None || file_count(files[j]) == Some(0nat),
    ensures
        within(first_temp(files, 0).value(), v as real / 1000 as real, 7 as real),
{
    lemma_skips_sensors(files, 0, k);
    lemma_count_held(files[k]);
    lemma_thousandths(v);
}

proof fn lemma_count_held(f: Option<String>)
    ensures
        match file_count(f) {
            Some(v) => v <= u64::MAX,
            None => true,
        },
{
}

proof fn lemma_skips_sensors(files: Seq<Option<String>>, i: int, k: int)
    requires
        0 <= i <= k <= files.len(),
        forall|j: int| i <= j < k ==> file_count(#[trigger] files[j]) is None || file_count(files[j]) == Some(0nat),
    ensures
        first_temp(files, i) == first_temp(files, k),
    decreases k - i,
{
    if i < k {
        assert(file_count(files[i]) is None || file_count(files[i]) == Some(0nat));
        lemma_skips_sensors(files, i + 1, k);
    }
}

/// Without a sensor that tells more than nothing there is no temperature.
pub proof fn lemma_no_sensor(files: Seq<Option<String>>)
    requires
        forall|j: int|
            0 <= j < files.len() ==> file_count(#[trigger] files[j]) is None || file_count(files[j]) == Some(0nat),
    ensures
        first_temp(files, 0) == Num::spec_zero(),
{
    lemma_skips_sensors(files, 0, files.len() as int);
}

/// Each core's usage comes from its own samples and its frequency from its own
/// file, which counts kHz; the first of the samples is that of all cores.
pub proof fn lemma_cores_apart(
    before: Cpu,
    after: Cpu,
    stat: Seq<char>,
    freqs: Seq<Option<String>>,
    temps: Seq<Option<String>>,
    i: int,
)
    requires
        after.took_in(before, stat, freqs, temps),
        0 <= i < before.count,
        i + 1 < before.curr@.len(),
        i + 1 < stat_times(stat).len(),
        i < freqs.len(),
    ensures
        after.overall() == usage_between(before.curr@[0], stat_times(stat)[0]),
        after.of_core(i) == usage_between(before.curr@[i + 1], stat_times(stat)[i + 1]),
        match file_count(freqs[i]) {
            Some(khz) => within(after.freq@[i].value(), khz as real / 1000 as real, 7 as real),
            None => after.freq@[i] == Num::spec_zero(),
        },
{
    lemma_count_held(freqs[i]);
    match file_count(freqs[i]) {
        Some(khz) => lemma_thousandths(khz),
        None => {},
    }
}

/// Utilisation sampled elsewhere is shown as it is, of all cores and of each.
pub proof fn lemma_totals_shown(before: Cpu, after: Cpu, all: Num, cores: Seq<Num>, i: int)
    requires
        after.took_totals(before, all, cores),
        0 <= i < cores.len(),
    ensures
        after.overall().total == all,
        after.of_core(i).total == cores[i],
        after.overall().user == Num::spec_zero(),
        after.overall().system == Num::spec_zero(),
        after.overall().iowait == Num::spec_zero(),
{
}

} // verus!
