//! RAM and swap usage, from the text of `/proc/meminfo` or from figures
//! sampled elsewhere.

use super::{held, lemma_percent_value, percent, percent_of, plus_held, times_held};
use crate::chars::{same, texts};
use crate::num::value::within;
use crate::num::Num;
use crate::scan::{halves, lines, parse_u64, split_lines, split_once, split_words, unsigned_value, words};
use vstd::prelude::*;

verus! {

/// Physical memory figures in bytes plus derived percentages.
#[derive(Clone, Copy, Debug, PartialEq, Eq, Structural)]
pub struct Ram {
    pub total: u64,
    pub used: u64,
    pub free: u64,
    pub available: u64,
    pub buffers: u64,
    pub cached: u64,
    pub shared: u64,
    pub used_percent: Num,
    pub available_percent: Num,
    pub cache_percent: Num,
}

/// Swap figures in bytes plus the used percentage.
#[derive(Clone, Copy, Debug, PartialEq, Eq, Structural)]
pub struct Swap {
    pub total: u64,
    pub used: u64,
    pub free: u64,
    pub used_percent: Num,
}

/// RAM and swap usage.
#[derive(Clone, Copy, Debug, PartialEq, Eq, Structural)]
pub struct Memory {
    pub ram: Ram,
    pub swap: Swap,
}

/// A share in percent; zero of nothing.
pub open spec fn share(part: nat, whole: nat) -> Num {
    if whole == 0 {
        Num::spec_zero()
    } else {
        percent_of(part, whole)
    }
}

fn pct(part: u64, whole: u64) -> (r: Num)
    ensures
        r == share(part as nat, whole as nat),
{
    if whole == 0 {
        Num::zero()
    } else {
        percent(part, whole)
    }
}

/// The bytes that a line's value counts in kB; zero where it counts nothing.
/// A figure too large to hold stops at the largest.
pub open spec fn value_bytes(v: Seq<char>) -> nat {
    let w = words(v);
    if w.len() == 0 {
        0
    } else {
        match unsigned_value(w[0], u64::MAX as nat) {
            Some(n) => held(n * 1024),
            None => 0,
        }
    }
}

/// The figure under a key: that of the last line which has it.
pub open spec fn figure(all: Seq<Seq<char>>, key: Seq<char>) -> Option<nat>
    decreases all.len(),
{
    if all.len() == 0 {
        None
    } else {
        match halves(all.last(), ":"@) {
            Some(h) => if h.0 == key {
                Some(value_bytes(h.1))
            } else {
                figure(all.drop_last(), key)
            },
            None => figure(all.drop_last(), key),
        }
    }
}

/// The figure under a key, zero where there is none.
pub open spec fn figure_or_zero(all: Seq<Seq<char>>, key: Seq<char>) -> nat {
    match figure(all, key) {
        Some(n) => n,
        None => 0,
    }
}

/// A difference, or nothing.
pub open spec fn less(a: nat, b: nat) -> nat {
    if a >= b {
        (a - b) as nat
    } else {
        0
    }
}

/// The RAM figures among the lines of `/proc/meminfo`.
pub open spec fn ram_of(all: Seq<Seq<char>>) -> Ram {
    let total = figure_or_zero(all, "MemTotal"@);
    let free = figure_or_zero(all, "MemFree"@);
    let buffers = figure_or_zero(all, "Buffers"@);
    let cached = held(figure_or_zero(all, "Cached"@) + figure_or_zero(all, "SReclaimable"@));
    let available = match figure(all, "MemAvailable"@) {
        Some(n) => n,
        None => held(cached + free),
    };
    let used = less(less(less(total, free), buffers), cached);
    Ram {
        total: total as u64,
        used: used as u64,
        free: free as u64,
        available: available as u64,
        buffers: buffers as u64,
        cached: cached as u64,
        shared: figure_or_zero(all, "Shmem"@) as u64,
        used_percent: share(used, total),
        available_percent: share(available, total),
        cache_percent: share(held(cached + buffers), total),
    }
}

/// The swap figures.
pub open spec fn swap_with(total: nat, used: nat, free: nat) -> Swap {
    Swap { total: total as u64, used: used as u64, free: free as u64, used_percent: share(used, total) }
}

/// The swap figures among the lines of `/proc/meminfo`.
pub open spec fn swap_of(all: Seq<Seq<char>>) -> Swap {
    let total = figure_or_zero(all, "SwapTotal"@);
    let free = figure_or_zero(all, "SwapFree"@);
    swap_with(total, less(total, free), free)
}

/// The figure under a key.
fn lookup(all: &Vec<String>, key: &str) -> (r: Option<u64>)
    ensures
        match r {
            Some(n) => figure(texts(all@), key@) == Some(n as nat),
            None => figure(texts(all@), key@) is None,
        },
{
    let ghost ls = texts(all@);
    let mut i: usize = all.len();
    proof {
        assert(ls.take(i as int) =~= ls);
    }
    while i > 0
        invariant
            i <= all@.len(),
            ls == texts(all@),
            figure(ls, key@) == figure(ls.take(i as int), key@),
        decreases i,
    {
        i = i - 1;
        proof {
            assert(ls.take(i + 1).drop_last() =~= ls.take(i as int));
            assert(ls.take(i + 1).last() == all@[i as int]@);
        }
        if let Some((k, v)) = split_once(all[i].as_str(), ":") {
            if same(k.as_str(), key) {
                let w: Vec<String> = split_words(v.as_str());
                proof {
                    assert(texts(w@).len() == w@.len());
                }
                if w.len() == 0 {
                    return Some(0);
                }
                return match parse_u64(w[0].as_str()) {
                    Some(n) => Some(times_held(n, 1024)),
                    None => Some(0),
                };
            }
        }
    }
    proof {
        assert(ls.take(0).len() == 0);
    }
    None
}

fn lookup_or_zero(all: &Vec<String>, key: &str) -> (r: u64)
    ensures
        r == figure_or_zero(texts(all@), key@),
{
    match lookup(all, key) {
        Some(n) => n,
        None => 0,
    }
}

impl Memory {
    pub open spec fn swaps(&self) -> bool {
        self.swap.total > 0
    }

    pub fn has_swap(&self) -> (r: bool)
        ensures
            r == self.swaps(),
    {
        self.swap.total > 0
    }

    /// The figures in the text of `/proc/meminfo`.
    pub fn new(meminfo: &str) -> (r: Memory)
        ensures
            r.ram == ram_of(lines(meminfo@)),
            r.swap == swap_of(lines(meminfo@)),
    {
        let all: Vec<String> = split_lines(meminfo);
        let total: u64 = lookup_or_zero(&all, "MemTotal");
        let free: u64 = lookup_or_zero(&all, "MemFree");
        let buffers: u64 = lookup_or_zero(&all, "Buffers");
        let cached: u64 = plus_held(lookup_or_zero(&all, "Cached"), lookup_or_zero(&all, "SReclaimable"));
        let shared: u64 = lookup_or_zero(&all, "Shmem");
        let available: u64 = match lookup(&all, "MemAvailable") {
            Some(n) => n,
            None => plus_held(cached, free),
        };
        let used: u64 = total.saturating_sub(free).saturating_sub(buffers).saturating_sub(cached);
        let ram = Ram {
            total,
            used,
            free,
            available,
            buffers,
            cached,
            shared,
            used_percent: pct(used, total),
            available_percent: pct(available, total),
            cache_percent: pct(plus_held(cached, buffers), total),
        };
        let stotal: u64 = lookup_or_zero(&all, "SwapTotal");
        let sfree: u64 = lookup_or_zero(&all, "SwapFree");
        let sused: u64 = stotal.saturating_sub(sfree);
        let swap = Swap { total: stotal, used: sused, free: sfree, used_percent: pct(sused, stotal) };
        Memory { ram, swap }
    }

    /// Takes over the figures in a fresh text of `/proc/meminfo`.
    pub fn update(&mut self, meminfo: &str)
        ensures
            final(self).ram == ram_of(lines(meminfo@)),
            final(self).swap == swap_of(lines(meminfo@)),
    {
        *self = Memory::new(meminfo);
    }

    /// Figures sampled elsewhere: of RAM the total and the used, available and
    /// free bytes, of swap the total and the used and free bytes.
    pub fn from_figures(
        total: u64,
        used: u64,
        available: u64,
        free: u64,
        swap_total: u64,
        swap_used: u64,
        swap_free: u64,
    ) -> (r: Memory)
        ensures
            r.ram == (Ram {
                total,
                used,
                free,
                available,
                buffers: 0,
                cached: 0,
                shared: 0,
                used_percent: share(used as nat, total as nat),
                available_percent: share(available as nat, total as nat),
                cache_percent: Num::spec_zero(),
            }),
            r.swap == swap_with(swap_total as nat, swap_used as nat, swap_free as nat),
    {
        let ram = Ram {
            total,
            used,
            free,
            available,
            buffers: 0,
            cached: 0,
            shared: 0,
            used_percent: pct(used, total),
            available_percent: pct(available, total),
            cache_percent: Num::zero(),
        };
        let swap = Swap { total: swap_total, used: swap_used, free: swap_free, used_percent: pct(swap_used, swap_total) };
        Memory { ram, swap }
    }
}

/// Whether a line of `/proc/meminfo` gives a key that many kB, and no later
/// line has the key.
pub open spec fn given(all: Seq<Seq<char>>, key: Seq<char>, kb: nat) -> bool {
    exists|i: int|
        0 <= i < all.len() && #[trigger] gives(all[i], key, kb) && forall|j: int|
            i < j < all.len() ==> !#[trigger] has_key(all[j], key)
}

/// Whether a line gives a key that many kB.
pub open spec fn gives(line: Seq<char>, key: Seq<char>, kb: nat) -> bool {
    match halves(line, ":"@) {
        Some(h) => h.0 == key && words(h.1).len() > 0 && unsigned_value(words(h.1)[0], u64::MAX as nat) == Some(kb),
        None => false,
    }
}

/// Whether a line has a key in front of its first colon.
pub open spec fn has_key(line: Seq<char>, key: Seq<char>) -> bool {
    match halves(line, ":"@) {
        Some(h) => h.0 == key,
        None => false,
    }
}

/// Whether no line has a key.
pub open spec fn lacks(all: Seq<Seq<char>>, key: Seq<char>) -> bool {
    forall|j: int| 0 <= j < all.len() ==> !#[trigger] has_key(all[j], key)
}

proof fn lemma_given(all: Seq<Seq<char>>, key: Seq<char>, kb: nat)
    requires
        given(all, key, kb),
    ensures
        figure(all, key) == Some(held(kb * 1024)),
    decreases all.len(),
{
    let i = choose|i: int|
        0 <= i < all.len() && #[trigger] gives(all[i], key, kb) && forall|j: int|
            i < j < all.len() ==> !#[trigger] has_key(all[j], key);
    if i < all.len() - 1 {
        let front = all.drop_last();
        assert(!has_key(all[all.len() - 1], key));
        assert(gives(front[i], key, kb));
        assert forall|j: int| i < j < front.len() implies !#[trigger] has_key(front[j], key) by {
            assert(front[j] == all[j]);
        }
        lemma_given(front, key, kb);
    }
}

proof fn lemma_lacking(all: Seq<Seq<char>>, key: Seq<char>)
    requires
        lacks(all, key),
    ensures
        figure(all, key) is None,
    decreases all.len(),
{
    if all.len() > 0 {
        let front = all.drop_last();
        assert(!has_key(all[all.len() - 1], key));
        assert forall|j: int| 0 <= j < front.len() implies !#[trigger] has_key(front[j], key) by {
            assert(front[j] == all[j]);
        }
        lemma_lacking(front, key);
    }
}

/// The memory's figures are those of `/proc/meminfo` in bytes. Reclaimable
/// slabs count as cache; what is neither free, nor buffers, nor cache is used,
/// and the percentages are shares of all memory.
pub proof fn lemma_ram_figures(
    all: Seq<Seq<char>>,
    total: nat,
    free: nat,
    buffers: nat,
    cached: nat,
    slabs: nat,
    available: nat,
    shared: nat,
)
    requires
        given(all, "MemTotal"@, total),
        given(all, "MemFree"@, free),
        given(all, "Buffers"@, buffers),
        given(all, "Cached"@, cached),
        given(all, "SReclaimable"@, slabs),
        given(all, "MemAvailable"@, available),
        given(all, "Shmem"@, shared),
        free + buffers + cached + slabs <= total,
        available <= total,
        shared <= total,
        0 < total * 1024 <= u64::MAX,
    ensures
        ({
            let m = ram_of(all);
            let whole = (total * 1024) as real;
            &&& m.total == total * 1024
            &&& m.free == free * 1024
            &&& m.buffers == buffers * 1024
            &&& m.cached == (cached + slabs) * 1024
            &&& m.available == available * 1024
            &&& m.shared == shared * 1024
            &&& m.used + m.free + m.buffers + m.cached == m.total
            &&& within(m.used_percent.value(), m.used as real / whole * 100 as real, 14 as real)
            &&& within(m.available_percent.value(), m.available as real / whole * 100 as real, 14 as real)
            &&& within(m.cache_percent.value(), (m.cached + m.buffers) as real / whole * 100 as real, 14 as real)
        }),
{
    lemma_given(all, "MemTotal"@, total);
    lemma_given(all, "MemFree"@, free);
    lemma_given(all, "Buffers"@, buffers);
    lemma_given(all, "Cached"@, cached);
    lemma_given(all, "SReclaimable"@, slabs);
    lemma_given(all, "MemAvailable"@, available);
    lemma_given(all, "Shmem"@, shared);
    let m = ram_of(all);
    lemma_percent_value(m.used as nat, total * 1024);
    lemma_percent_value(m.available as nat, total * 1024);
    lemma_percent_value((m.cached + m.buffers) as nat, total * 1024);
}

/// Where the kernel does not tell what is available, it is what is free or
/// cache.
pub proof fn lemma_available_estimated(all: Seq<Seq<char>>)
    requires
        lacks(all, "MemAvailable"@),
        ram_of(all).free + ram_of(all).cached <= u64::MAX,
    ensures
        ram_of(all).available == ram_of(all).free + ram_of(all).cached,
{
    lemma_lacking(all, "MemAvailable"@);
    lemma_figures_held(all, "MemFree"@);
}

proof fn lemma_figures_held(all: Seq<Seq<char>>, key: Seq<char>)
    ensures
        figure_or_zero(all, key) <= u64::MAX,
    decreases all.len(),
{
    if all.len() > 0 {
        lemma_figures_held(all.drop_last(), key);
    }
}

/// Swap that is not free is used, and its percentage is the share of all swap.
pub proof fn lemma_swap_figures(all: Seq<Seq<char>>, total: nat, free: nat)
    requires
        given(all, "SwapTotal"@, total),
        given(all, "SwapFree"@, free),
        free <= total,
        0 < total * 1024 <= u64::MAX,
    ensures
        swap_of(all).total == total * 1024,
        swap_of(all).free == free * 1024,
        swap_of(all).used + swap_of(all).free == swap_of(all).total,
        within(
            swap_of(all).used_percent.value(),
            (total - free) as real / total as real * 100 as real,
            14 as real,
        ),
{
    lemma_given(all, "SwapTotal"@, total);
    lemma_given(all, "SwapFree"@, free);
    let used = ((total - free) * 1024) as nat;
    assert(total * 1024 - free * 1024 == (total - free) * 1024);
    lemma_percent_value(used, total * 1024);
    let (a, b) = ((total - free) as real, total as real);
    assert(used as real / (total * 1024) as real == a / b) by (nonlinear_arith)
        requires
            used as real == a * 1024 as real,
            (total * 1024) as real == b * 1024 as real,
            b >= 1 as real,
    {
        let q = a / b;
        assert(q * b == a);
        assert(q * (b * 1024 as real) == a * 1024 as real);
    }
}

/// No swap shows no usage.
pub proof fn lemma_no_swap(all: Seq<Seq<char>>)
    requires
        lacks(all, "SwapTotal"@),
    ensures
        swap_of(all).total == 0,
        swap_of(all).used == 0,
        swap_of(all).used_percent == Num::spec_zero(),
{
    lemma_lacking(all, "SwapTotal"@);
}

} // verus!
