//! Aggregate and per-interface network throughput from cumulative byte
//! counters, loopback left out.

use super::disk::{fresh_rate, next_rate};
use super::{delta, elapsed, held, lemma_paced, lemma_seconds_value, paced, plus_held, seconds};
use crate::chars::{same, texts};
use crate::num::Num;
use crate::scan::{
    begins, halves, lines, parse_u64, split_lines, split_once, split_words, starts, trim, trimmed, unsigned_value, words,
};
use crate::sort::{comes_before, slot, text_before};
use vstd::prelude::*;

verus! {

/// An interface's cumulative byte counters.
pub struct Counter {
    pub name: String,
    pub rx: u64,
    pub tx: u64,
}

/// One interface's current throughput.
pub struct Iface {
    pub name: String,
    pub rx_per_sec: Num,
    pub tx_per_sec: Num,
}

pub struct Network {
    /// Download rate, bytes/sec, all interfaces.
    pub rx_per_sec: Num,
    /// Upload rate, bytes/sec.
    pub tx_per_sec: Num,
    pub peak_rx: Num,
    pub peak_tx: Num,
    pub ifaces: Vec<Iface>,
    pub prev_rx: u64,
    pub prev_tx: u64,
    pub prev_per: Vec<Counter>,
    pub prev_time: u64,
    pub primed: bool,
}

/// Names and counters of a list.
pub open spec fn counter_texts(v: Seq<Counter>) -> Seq<(Seq<char>, u64, u64)> {
    Seq::new(v.len(), |i: int| (v[i].name@, v[i].rx, v[i].tx))
}

/// Loopback interfaces.
pub open spec fn loopback(name: Seq<char>) -> bool {
    name == "lo"@ || begins(name, "lo0"@)
}

/// Whether a name is that of a loopback interface.
pub fn is_loopback(name: &str) -> (r: bool)
    ensures
        r == loopback(name@),
{
    same(name, "lo") || starts(name, "lo0")
}

/// A counter as a word spells it; zero where it spells none.
pub open spec fn word_count(w: Seq<char>) -> u64 {
    match unsigned_value(w, u64::MAX as nat) {
        Some(n) => n as u64,
        None => 0,
    }
}

fn count_at(w: &str) -> (r: u64)
    ensures
        r == word_count(w@),
{
    match parse_u64(w) {
        Some(n) => n,
        None => 0,
    }
}

/// The counters on a line of `/proc/net/dev`.
pub open spec fn line_counter(line: Seq<char>) -> Option<(Seq<char>, u64, u64)> {
    match halves(line, ":"@) {
        None => None,
        Some(h) => {
            let name = trimmed(h.0);
            let w = words(h.1);
            if loopback(name) || w.len() < 9 {
                None
            } else {
                Some((name, word_count(w[0]), word_count(w[8])))
            }
        },
    }
}

/// The counters among some lines of `/proc/net/dev`.
pub open spec fn line_counters(all: Seq<Seq<char>>) -> Seq<(Seq<char>, u64, u64)>
    decreases all.len(),
{
    if all.len() == 0 {
        seq![]
    } else {
        let before = line_counters(all.drop_last());
        match line_counter(all.last()) {
            Some(c) => before.push(c),
            None => before,
        }
    }
}

/// Lists per-interface bytes received and sent in the text of
/// `/proc/net/dev`, skipping loopback.
pub fn parse_net_counters(data: &str) -> (r: Vec<Counter>)
    ensures
        counter_texts(r@) == line_counters(lines(data@)),
{
    let all: Vec<String> = split_lines(data);
    let ghost ls = texts(all@);
    let mut out: Vec<Counter> = Vec::new();
    let mut i: usize = 0;
    proof {
        assert(ls.take(0).len() == 0);
        assert(counter_texts(out@) =~= line_counters(ls.take(0)));
    }
    while i < all.len()
        invariant
            i <= all@.len(),
            ls == texts(all@),
            counter_texts(out@) == line_counters(ls.take(i as int)),
        decreases all@.len() - i,
    {
        proof {
            assert(ls.take(i + 1).drop_last() =~= ls.take(i as int));
            assert(ls.take(i + 1).last() == all@[i as int]@);
        }
        if let Some((head, rest)) = split_once(all[i].as_str(), ":") {
            let name = trim(head.as_str());
            let w: Vec<String> = split_words(rest.as_str());
            proof {
                assert(texts(w@).len() == w@.len());
            }
            if !is_loopback(name.as_str()) && w.len() >= 9 {
                let c = Counter { name, rx: count_at(w[0].as_str()), tx: count_at(w[8].as_str()) };
                let ghost before = counter_texts(out@);
                let ghost one = (c.name@, c.rx, c.tx);
                out.push(c);
                proof {
                    assert(counter_texts(out@) =~= before.push(one));
                }
            }
        }
        i = i + 1;
    }
    proof {
        assert(ls.take(all@.len() as int) =~= ls);
    }
    out
}

/// The last counter under a name.
pub open spec fn counter_of(v: Seq<Counter>, name: Seq<char>) -> Option<Counter>
    decreases v.len(),
{
    if v.len() == 0 {
        None
    } else if v.last().name@ == name {
        Some(v.last())
    } else {
        counter_of(v.drop_last(), name)
    }
}

/// An interface's throughput against its previous counters, zero where it had
/// none.
pub open spec fn iface_rates(c: Counter, prev: Seq<Counter>, dt: Num) -> Iface {
    match counter_of(prev, c.name@) {
        Some(p) => Iface {
            name: c.name,
            rx_per_sec: next_rate(Num::spec_zero(), c.rx, p.rx, dt),
            tx_per_sec: next_rate(Num::spec_zero(), c.tx, p.tx, dt),
        },
        None => Iface { name: c.name, rx_per_sec: Num::spec_zero(), tx_per_sec: Num::spec_zero() },
    }
}

/// Interfaces that have carried anything, in the order of their names.
pub open spec fn iface_list(counters: Seq<Counter>, prev: Seq<Counter>, dt: Num) -> Seq<Iface>
    decreases counters.len(),
{
    if counters.len() == 0 {
        seq![]
    } else {
        let before = iface_list(counters.drop_last(), prev, dt);
        let c = counters.last();
        if c.rx == 0 && c.tx == 0 {
            before
        } else {
            let x = iface_rates(c, prev, dt);
            before.insert(slot(before, x, by_name()), x)
        }
    }
}

/// Interfaces by their names.
pub open spec fn by_name() -> spec_fn(Iface, Iface) -> bool {
    |a: Iface, b: Iface| text_before(a.name@, b.name@)
}

/// The bytes received over all interfaces.
pub open spec fn rx_sum(v: Seq<Counter>) -> nat
    decreases v.len(),
{
    if v.len() == 0 {
        0
    } else {
        held(rx_sum(v.drop_last()) + v.last().rx as nat)
    }
}

/// The bytes sent over all interfaces.
pub open spec fn tx_sum(v: Seq<Counter>) -> nat
    decreases v.len(),
{
    if v.len() == 0 {
        0
    } else {
        held(tx_sum(v.drop_last()) + v.last().tx as nat)
    }
}

fn find_counter<'a>(v: &'a Vec<Counter>, name: &str) -> (r: Option<&'a Counter>)
    ensures
        match r {
            Some(c) => counter_of(v@, name@) == Some(*c),
            None => counter_of(v@, name@) is None,
        },
{
    let mut i: usize = v.len();
    proof {
        assert(v@.take(i as int) =~= v@);
    }
    while i > 0
        invariant
            i <= v@.len(),
            counter_of(v@, name@) == counter_of(v@.take(i as int), name@),
        decreases i,
    {
        i = i - 1;
        proof {
            assert(v@.take(i + 1).drop_last() =~= v@.take(i as int));
            assert(v@.take(i + 1).last() == v@[i as int]);
        }
        if same(v[i].name.as_str(), name) {
            return Some(&v[i]);
        }
    }
    proof {
        assert(v@.take(0).len() == 0);
    }
    None
}

fn measure(c: &Counter, prev: &Vec<Counter>, dt: Num) -> (r: Iface)
    ensures
        r == iface_rates(*c, prev@, dt),
{
    match find_counter(prev, c.name.as_str()) {
        Some(p) => Iface {
            name: c.name.clone(),
            rx_per_sec: fresh_rate(Num::zero(), c.rx, p.rx, dt),
            tx_per_sec: fresh_rate(Num::zero(), c.tx, p.tx, dt),
        },
        None => Iface { name: c.name.clone(), rx_per_sec: Num::zero(), tx_per_sec: Num::zero() },
    }
}

/// Puts an interface behind those whose name comes no later.
fn place_iface(out: &mut Vec<Iface>, x: Iface)
    ensures
        final(out)@ == old(out)@.insert(slot(old(out)@, x, by_name()), x),
{
    let ghost before = out@;
    let mut at: usize = out.len();
    proof {
        assert(before.take(at as int) =~= before);
    }
    while at > 0 && comes_before(x.name.as_str(), out[at - 1].name.as_str())
        invariant
            at <= out@.len(),
            out@ == before,
            slot(before, x, by_name()) == slot(before.take(at as int), x, by_name()),
        decreases at,
    {
        proof {
            assert(before.take(at as int).drop_last() =~= before.take(at - 1));
        }
        at = at - 1;
    }
    proof {
        if at > 0 {
            assert(before.take(at as int).last() == before[at - 1]);
        }
    }
    out.insert(at, x);
}

impl Network {
    /// The time since the previous reading; none before the first.
    pub open spec fn span(&self, now: u64) -> Num {
        if self.primed {
            seconds(delta(now, self.prev_time))
        } else {
            Num::spec_zero()
        }
    }

    /// This is what stood before with a reading of the counters taken in.
    pub open spec fn took_in(&self, before: Network, counters: Vec<Counter>, now: u64) -> bool {
        let dt = before.span(now);
        let rx = rx_sum(counters@) as u64;
        let tx = tx_sum(counters@) as u64;
        &&& self.ifaces@ == iface_list(counters@, before.prev_per@, dt)
        &&& self.rx_per_sec == next_rate(before.rx_per_sec, rx, before.prev_rx, dt)
        &&& self.tx_per_sec == next_rate(before.tx_per_sec, tx, before.prev_tx, dt)
        &&& self.peak_rx == before.peak_rx.greater(self.rx_per_sec)
        &&& self.peak_tx == before.peak_tx.greater(self.tx_per_sec)
        &&& self.prev_rx == rx_sum(counters@)
        &&& self.prev_tx == tx_sum(counters@)
        &&& self.prev_per == counters
        &&& self.prev_time == now
        &&& self.primed
    }

    /// A baseline from a first reading of the counters.
    pub fn new(counters: Vec<Counter>, now: u64) -> (r: Network)
        ensures
            r.rx_per_sec == Num::spec_zero(),
            r.tx_per_sec == Num::spec_zero(),
            r.peak_rx == Num::spec_zero(),
            r.peak_tx == Num::spec_zero(),
            r.ifaces@ == iface_list(counters@, seq![], Num::spec_zero()),
            r.prev_rx == rx_sum(counters@),
            r.prev_tx == tx_sum(counters@),
            r.prev_per == counters,
            r.prev_time == now,
            r.primed,
    {
        let mut n = Network {
            rx_per_sec: Num::zero(),
            tx_per_sec: Num::zero(),
            peak_rx: Num::zero(),
            peak_tx: Num::zero(),
            ifaces: Vec::new(),
            prev_rx: 0,
            prev_tx: 0,
            prev_per: Vec::new(),
            prev_time: now,
            primed: false,
        };
        proof {
            assert(n.prev_per@ =~= seq![]);
        }
        n.ingest(counters, now);
        n
    }

    /// Takes in a reading of the counters: rates from the change since the
    /// previous one over the elapsed time, and the peaks so far.
    pub fn ingest(&mut self, counters: Vec<Counter>, now: u64)
        ensures
            final(self).took_in(*old(self), counters, now),
    {
        let dt = if self.primed {
            elapsed(now, self.prev_time)
        } else {
            Num::zero()
        };
        let mut rx: u64 = 0;
        let mut tx: u64 = 0;
        let mut ifaces: Vec<Iface> = Vec::new();
        let mut i: usize = 0;
        proof {
            assert(counters@.take(0).len() == 0);
            assert(ifaces@ =~= iface_list(counters@.take(0), self.prev_per@, dt));
        }
        while i < counters.len()
            invariant
                i <= counters@.len(),
                *self == *old(self),
                rx == rx_sum(counters@.take(i as int)),
                tx == tx_sum(counters@.take(i as int)),
                ifaces@ == iface_list(counters@.take(i as int), self.prev_per@, dt),
            decreases counters@.len() - i,
        {
            proof {
                assert(counters@.take(i + 1).drop_last() =~= counters@.take(i as int));
                assert(counters@.take(i + 1).last() == counters@[i as int]);
            }
            let c = &counters[i];
            rx = plus_held(rx, c.rx);
            tx = plus_held(tx, c.tx);
            if c.rx != 0 || c.tx != 0 {
                let x = measure(c, &self.prev_per, dt);
                place_iface(&mut ifaces, x);
            }
            i = i + 1;
        }
        proof {
            assert(counters@.take(counters@.len() as int) =~= counters@);
        }
        self.ifaces = ifaces;
        self.rx_per_sec = fresh_rate(self.rx_per_sec, rx, self.prev_rx, dt);
        self.tx_per_sec = fresh_rate(self.tx_per_sec, tx, self.prev_tx, dt);
        self.peak_rx = self.peak_rx.max_of(self.rx_per_sec);
        self.peak_tx = self.peak_tx.max_of(self.tx_per_sec);
        self.prev_rx = rx;
        self.prev_tx = tx;
        self.prev_per = counters;
        self.prev_time = now;
        self.primed = true;
    }

    /// Takes in a reading of the counters, where there is one.
    pub fn update(&mut self, counters: Option<Vec<Counter>>, now: u64)
        ensures
            counters is None ==> *final(self) == *old(self),
            counters matches Some(c) ==> final(self).took_in(*old(self), c, now),
    {
        if let Some(c) = counters {
            self.ingest(c, now);
        }
    }
}

/// A peak never falls: it is at least the rate it was last held against, and
/// at least what it was, unless one of them is not a number.
pub proof fn lemma_peak_holds(peak: Num, rate: Num)
    requires
        !peak.nan(),
        !rate.nan(),
    ensures
        peak.greater(rate).at_least(peak),
        peak.greater(rate).at_least(rate),
{
}

/// The bytes received over some interfaces, however many.
pub open spec fn received(v: Seq<Counter>) -> nat
    decreases v.len(),
{
    if v.len() == 0 {
        0
    } else {
        v[0].rx as nat + received(v.skip(1))
    }
}

/// The bytes sent over some interfaces, however many.
pub open spec fn sent(v: Seq<Counter>) -> nat
    decreases v.len(),
{
    if v.len() == 0 {
        0
    } else {
        v[0].tx as nat + sent(v.skip(1))
    }
}

proof fn lemma_counted_push(v: Seq<Counter>, c: Counter)
    ensures
        received(v.push(c)) == received(v) + c.rx,
        sent(v.push(c)) == sent(v) + c.tx,
    decreases v.len(),
{
    if v.len() == 0 {
        assert(v.push(c).skip(1) =~= v);
    } else {
        lemma_counted_push(v.skip(1), c);
        assert(v.push(c).skip(1) =~= v.skip(1).push(c));
    }
}

proof fn lemma_counted(v: Seq<Counter>)
    requires
        received(v) <= u64::MAX,
        sent(v) <= u64::MAX,
    ensures
        rx_sum(v) == received(v),
        tx_sum(v) == sent(v),
    decreases v.len(),
{
    if v.len() > 0 {
        lemma_counted_push(v.drop_last(), v.last());
        assert(v.drop_last().push(v.last()) =~= v);
        lemma_counted(v.drop_last());
    }
}

/// The network's throughput is what all interfaces together received and sent
/// since the previous reading over the time that passed. A counter that went
/// back leaves the rate it had. The peaks keep the highest rates.
pub proof fn lemma_throughput_paced(before: Network, after: Network, counters: Vec<Counter>, now: u64)
    requires
        after.took_in(before, counters, now),
        before.primed,
        received(counters@) <= u64::MAX,
        sent(counters@) <= u64::MAX,
    ensures
        ({
            let (rx, tx) = (received(counters@), sent(counters@));
            let ns = (now - before.prev_time) as nat;
            &&& now > before.prev_time && rx >= before.prev_rx ==> paced(after.rx_per_sec, rx as u64, before.prev_rx, ns)
            &&& now > before.prev_time && tx >= before.prev_tx ==> paced(after.tx_per_sec, tx as u64, before.prev_tx, ns)
            &&& now <= before.prev_time || rx < before.prev_rx ==> after.rx_per_sec == before.rx_per_sec
            &&& now <= before.prev_time || tx < before.prev_tx ==> after.tx_per_sec == before.tx_per_sec
            &&& after.prev_rx == rx && after.prev_tx == tx && after.prev_time == now
        }),
        !before.peak_rx.nan() && !after.rx_per_sec.nan() ==> after.peak_rx.at_least(before.peak_rx)
            && after.peak_rx.at_least(after.rx_per_sec) && (after.peak_rx == before.peak_rx || after.peak_rx
            == after.rx_per_sec),
        !before.peak_tx.nan() && !after.tx_per_sec.nan() ==> after.peak_tx.at_least(before.peak_tx)
            && after.peak_tx.at_least(after.tx_per_sec) && (after.peak_tx == before.peak_tx || after.peak_tx
            == after.tx_per_sec),
{
    lemma_counted(counters@);
    lemma_seconds_value(delta(now, before.prev_time));
    if now > before.prev_time {
        let ns = (now - before.prev_time) as nat;
        lemma_paced(received(counters@) as u64, before.prev_rx, ns);
        lemma_paced(sent(counters@) as u64, before.prev_tx, ns);
    }
}

/// Whether a place holds the last counter under a name.
pub open spec fn counter_at(v: Seq<Counter>, name: Seq<char>, j: int) -> bool {
    0 <= j < v.len() && v[j].name@ == name && forall|k: int| j < k < v.len() ==> (#[trigger] v[k]).name@ != name
}

proof fn lemma_counter_found(v: Seq<Counter>, name: Seq<char>, j: int)
    requires
        counter_at(v, name, j),
    ensures
        counter_of(v, name) == Some(v[j]),
    decreases v.len(),
{
    if j < v.len() - 1 {
        assert(v[v.len() - 1].name@ != name);
        assert forall|k: int| j < k < v.drop_last().len() implies (#[trigger] v.drop_last()[k]).name@ != name by {
            assert(v.drop_last()[k] == v[k]);
        }
        lemma_counter_found(v.drop_last(), name, j);
    }
}

/// The listed interfaces are those that have carried anything.
proof fn lemma_ifaces_from(v: Seq<Counter>, prev: Seq<Counter>, dt: Num, x: Iface)
    ensures
        iface_list(v, prev, dt).contains(x) <==> exists|i: int|
            0 <= i < v.len() && (#[trigger] v[i]).rx + v[i].tx > 0 && x == iface_rates(v[i], prev, dt),
    decreases v.len(),
{
    if v.len() > 0 {
        let front = v.drop_last();
        lemma_ifaces_from(front, prev, dt, x);
        let list = iface_list(front, prev, dt);
        let c = v.last();
        assert(v[v.len() - 1] == c);
        if exists|i: int| 0 <= i < front.len() && (#[trigger] front[i]).rx + front[i].tx > 0 && x == iface_rates(front[i], prev, dt) {
            let i = choose|i: int|
                0 <= i < front.len() && (#[trigger] front[i]).rx + front[i].tx > 0 && x == iface_rates(front[i], prev, dt);
            assert(v[i] == front[i]);
        }
        if exists|i: int| 0 <= i < v.len() && (#[trigger] v[i]).rx + v[i].tx > 0 && x == iface_rates(v[i], prev, dt) {
            let i = choose|i: int|
                0 <= i < v.len() && (#[trigger] v[i]).rx + v[i].tx > 0 && x == iface_rates(v[i], prev, dt);
            if i < v.len() - 1 {
                assert(front[i] == v[i]);
            }
        }
        if c.rx + c.tx > 0 {
            let y = iface_rates(c, prev, dt);
            let k = slot(list, y, by_name());
            crate::sort::lemma_slot_range(list, y, by_name());
            let out = list.insert(k, y);
            if list.contains(x) {
                let i = choose|i: int| 0 <= i < list.len() && list[i] == x;
                if i < k {
                    assert(out[i] == x);
                } else {
                    assert(out[i + 1] == x);
                }
            }
            assert(out[k] == y);
            if out.contains(x) && x != y {
                let i = choose|i: int| 0 <= i < out.len() && out[i] == x;
                if i < k {
                    assert(list[i] == x);
                } else {
                    assert(list[i - 1] == x);
                }
            }
        }
    }
}

/// An interface is listed where it has carried anything at all, with what it
/// received and sent since its previous counters over the time that passed.
pub proof fn lemma_iface_listed(before: Network, after: Network, counters: Vec<Counter>, now: u64, i: int)
    requires
        after.took_in(before, counters, now),
        before.primed,
        now > before.prev_time,
        0 <= i < counters@.len(),
        counters@[i].rx > 0 || counters@[i].tx > 0,
    ensures
        exists|k: int|
            0 <= k < after.ifaces@.len() && (#[trigger] after.ifaces@[k]).name == counters@[i].name && forall|j: int|
                #[trigger] counter_at(before.prev_per@, counters@[i].name@, j) ==> ({
                    let p = before.prev_per@[j];
                    let ns = (now - before.prev_time) as nat;
                    &&& counters@[i].rx >= p.rx ==> paced(after.ifaces@[k].rx_per_sec, counters@[i].rx, p.rx, ns)
                    &&& counters@[i].tx >= p.tx ==> paced(after.ifaces@[k].tx_per_sec, counters@[i].tx, p.tx, ns)
                    &&& counters@[i].rx < p.rx ==> after.ifaces@[k].rx_per_sec == Num::spec_zero()
                    &&& counters@[i].tx < p.tx ==> after.ifaces@[k].tx_per_sec == Num::spec_zero()
                }),
{
    let ns = (now - before.prev_time) as nat;
    let dt = seconds(ns);
    lemma_seconds_value(ns);
    let c = counters@[i];
    let x = iface_rates(c, before.prev_per@, dt);
    lemma_ifaces_from(counters@, before.prev_per@, dt, x);
    assert(after.ifaces@.contains(x));
    let k = choose|k: int| 0 <= k < after.ifaces@.len() && after.ifaces@[k] == x;
    assert forall|j: int| #[trigger] counter_at(before.prev_per@, c.name@, j) implies ({
        let p = before.prev_per@[j];
        &&& c.rx >= p.rx ==> paced(after.ifaces@[k].rx_per_sec, c.rx, p.rx, ns)
        &&& c.tx >= p.tx ==> paced(after.ifaces@[k].tx_per_sec, c.tx, p.tx, ns)
        &&& c.rx < p.rx ==> after.ifaces@[k].rx_per_sec == Num::spec_zero()
        &&& c.tx < p.tx ==> after.ifaces@[k].tx_per_sec == Num::spec_zero()
    }) by {
        let p = before.prev_per@[j];
        lemma_counter_found(before.prev_per@, c.name@, j);
        lemma_paced(c.rx, p.rx, ns);
        lemma_paced(c.tx, p.tx, ns);
    }
    assert(after.ifaces@[k].name == c.name);
}

/// A line of `/proc/net/dev` counts the bytes received in its first column and
/// those sent in its ninth, under the interface's name; loopback is left out.
pub proof fn lemma_net_columns(all: Seq<Seq<char>>, line: Seq<char>, name: Seq<char>, rest: Seq<char>, rx: u64, tx: u64)
    requires
        halves(line, ":"@) == Some((name, rest)),
        words(rest).len() >= 9,
        unsigned_value(words(rest)[0], u64::MAX as nat) == Some(rx as nat),
        unsigned_value(words(rest)[8], u64::MAX as nat) == Some(tx as nat),
    ensures
        trimmed(name) == "lo"@ ==> line_counters(all.push(line)) == line_counters(all),
        trimmed(name) != "lo"@ && !begins(trimmed(name), "lo0"@) ==> line_counters(all.push(line)) == line_counters(
            all,
        ).push((trimmed(name), rx, tx)),
{
    assert(all.push(line).drop_last() =~= all);
}

} // verus!
