//! Attributes live disk I/O to processes by diffing successive samples of each
//! process's cumulative read and written byte counters into rates.

use super::{counter_delta, delta, elapsed, lemma_paced, lemma_seconds_value, paced, per_second, rate, seconds};
use crate::chars::{same, texts};
use crate::num::Num;
use crate::scan::{halves, lines, parse_u64, split_lines, split_once, trim, trimmed, unsigned_value};
use vstd::prelude::*;

verus! {

/// One process's current disk throughput.
#[derive(Debug)]
pub struct ProcIO {
    pub pid: i32,
    pub name: String,
    pub read_per_sec: Num,
    pub write_per_sec: Num,
}

impl ProcIO {
    /// The same again.
    pub fn copy(&self) -> (r: ProcIO)
        ensures
            r == *self,
    {
        ProcIO {
            pid: self.pid,
            name: self.name.clone(),
            read_per_sec: self.read_per_sec,
            write_per_sec: self.write_per_sec,
        }
    }
}

/// A process's name and cumulative bytes read and written.
pub struct IoSample {
    pub pid: i32,
    pub name: String,
    pub read: u64,
    pub write: u64,
}

/// Disk I/O by process. `restricted` is set when the sampler ran without root,
/// so the table can note that coverage is partial.
pub struct ProcDisk {
    pub procs: Vec<ProcIO>,
    pub restricted: bool,
    pub prev: Vec<IoSample>,
    pub prev_time: u64,
    pub primed: bool,
}

/// The last sample of a process.
pub open spec fn io_sample_of(v: Seq<IoSample>, pid: i32) -> Option<IoSample>
    decreases v.len(),
{
    if v.len() == 0 {
        None
    } else if v.last().pid == pid {
        Some(v.last())
    } else {
        io_sample_of(v.drop_last(), pid)
    }
}

/// Whether the `i`-th sample is the last of its process.
pub open spec fn last_io(v: Seq<IoSample>, i: int) -> bool {
    forall|j: int| i < j < v.len() ==> (#[trigger] v[j]).pid != v[i].pid
}

/// What a process did since its previous sample, if anything.
pub open spec fn io_since(c: IoSample, prev: Seq<IoSample>, dt: Num) -> Option<ProcIO> {
    match io_sample_of(prev, c.pid) {
        None => None,
        Some(p) => if delta(c.read, p.read) == 0 && delta(c.write, p.write) == 0 {
            None
        } else {
            Some(
                ProcIO {
                    pid: c.pid,
                    name: c.name,
                    read_per_sec: per_second(delta(c.read, p.read), dt),
                    write_per_sec: per_second(delta(c.write, p.write), dt),
                },
            )
        },
    }
}

/// What the first `n` of some samples did since the previous ones: of several
/// samples of a process the last counts.
pub open spec fn io_list(v: Seq<IoSample>, prev: Seq<IoSample>, dt: Num, n: nat) -> Seq<ProcIO>
    decreases n,
{
    if n == 0 {
        seq![]
    } else {
        let before = io_list(v, prev, dt, (n - 1) as nat);
        match io_since(v[n - 1], prev, dt) {
            Some(x) => if last_io(v, n - 1) {
                before.push(x)
            } else {
                before
            },
            None => before,
        }
    }
}

fn find_sample<'a>(v: &'a Vec<IoSample>, pid: i32) -> (r: Option<&'a IoSample>)
    ensures
        match r {
            Some(c) => io_sample_of(v@, pid) == Some(*c),
            None => io_sample_of(v@, pid) is None,
        },
{
    let mut i: usize = v.len();
    proof {
        assert(v@.take(i as int) =~= v@);
    }
    while i > 0
        invariant
            i <= v@.len(),
            io_sample_of(v@, pid) == io_sample_of(v@.take(i as int), pid),
        decreases i,
    {
        i = i - 1;
        proof {
            assert(v@.take(i + 1).drop_last() =~= v@.take(i as int));
            assert(v@.take(i + 1).last() == v@[i as int]);
        }
        if v[i].pid == pid {
            return Some(&v[i]);
        }
    }
    proof {
        assert(v@.take(0).len() == 0);
    }
    None
}

fn is_last_io(v: &Vec<IoSample>, i: usize) -> (r: bool)
    requires
        i < v@.len(),
    ensures
        r == last_io(v@, i as int),
{
    let mut j: usize = v.len();
    while j > i + 1
        invariant
            i < j <= v@.len(),
            forall|k: int| j <= k < v@.len() ==> (#[trigger] v@[k]).pid != v@[i as int].pid,
        decreases j,
    {
        j = j - 1;
        if v[j].pid == v[i].pid {
            return false;
        }
    }
    true
}

impl ProcDisk {
    /// Nothing sampled yet.
    pub fn new(now: u64) -> (r: ProcDisk)
        ensures
            r.procs@.len() == 0,
            !r.restricted,
            r.prev@.len() == 0,
            r.prev_time == now,
            !r.primed,
    {
        ProcDisk { procs: Vec::new(), restricted: false, prev: Vec::new(), prev_time: now, primed: false }
    }

    /// Drops the baseline so the next update starts a fresh measurement window
    /// (used when the disk page is opened).
    pub fn reset(&mut self)
        ensures
            *final(self) == (ProcDisk { primed: false, ..*old(self) }),
    {
        self.primed = false;
    }

    /// Whether a sample at `now` ends a measurement window.
    pub open spec fn measures(&self, now: u64) -> bool {
        self.primed && Num::spec_zero().less(seconds(delta(now, self.prev_time)))
    }

    /// This is what stood before with a sample of every process taken in.
    pub open spec fn took_in(&self, before: ProcDisk, samples: Vec<IoSample>, restricted: bool, now: u64) -> bool {
        let dt = seconds(delta(now, before.prev_time));
        &&& self.procs@ == if before.measures(now) {
            io_list(samples@, before.prev@, dt, samples@.len())
        } else {
            before.procs@
        }
        &&& self.restricted == restricted
        &&& self.prev == samples
        &&& self.prev_time == now
        &&& self.primed
    }

    /// Takes in a sample of every process. A process shows up once it has a
    /// previous sample and has read or written since.
    pub fn update(&mut self, samples: Vec<IoSample>, restricted: bool, now: u64)
        ensures
            final(self).took_in(*old(self), samples, restricted, now),
    {
        self.restricted = restricted;
        let dt = elapsed(now, self.prev_time);
        if self.primed && Num::zero().lt(dt) {
            let mut procs: Vec<ProcIO> = Vec::new();
            let mut i: usize = 0;
            proof {
                assert(procs@ =~= io_list(samples@, self.prev@, dt, 0));
            }
            while i < samples.len()
                invariant
                    i <= samples@.len(),
                    procs@ == io_list(samples@, self.prev@, dt, i as nat),
                decreases samples@.len() - i,
            {
                let c = &samples[i];
                if let Some(p) = find_sample(&self.prev, c.pid) {
                    let dr: u64 = counter_delta(c.read, p.read);
                    let dw: u64 = counter_delta(c.write, p.write);
                    if (dr != 0 || dw != 0) && is_last_io(&samples, i) {
                        procs.push(
                            ProcIO {
                                pid: c.pid,
                                name: c.name.clone(),
                                read_per_sec: rate(dr, dt),
                                write_per_sec: rate(dw, dt),
                            },
                        );
                    }
                }
                i = i + 1;
            }
            self.procs = procs;
        }
        self.prev = samples;
        self.prev_time = now;
        self.primed = true;
    }
}

/// The counter under a key of `/proc/<pid>/io`: that of the last line which
/// has it, zero where none does or it is no count.
pub open spec fn io_field(all: Seq<Seq<char>>, key: Seq<char>) -> nat
    decreases all.len(),
{
    if all.len() == 0 {
        0
    } else {
        match halves(all.last(), ": "@) {
            Some(h) => if h.0 == key {
                match unsigned_value(trimmed(h.1), u64::MAX as nat) {
                    Some(n) => n,
                    None => 0,
                }
            } else {
                io_field(all.drop_last(), key)
            },
            None => io_field(all.drop_last(), key),
        }
    }
}

fn field(all: &Vec<String>, key: &str) -> (r: u64)
    ensures
        r == io_field(texts(all@), key@),
{
    let ghost ls = texts(all@);
    let mut i: usize = all.len();
    proof {
        assert(ls.take(i as int) =~= ls);
    }
    while i > 0
        invariant
            i <= all@.len(),
            ls == texts(all@),
            io_field(ls, key@) == io_field(ls.take(i as int), key@),
        decreases i,
    {
        i = i - 1;
        proof {
            assert(ls.take(i + 1).drop_last() =~= ls.take(i as int));
            assert(ls.take(i + 1).last() == all@[i as int]@);
        }
        if let Some((k, v)) = split_once(all[i].as_str(), ": ") {
            if same(k.as_str(), key) {
                return match parse_u64(trim(v.as_str()).as_str()) {
                    Some(n) => n,
                    None => 0,
                };
            }
        }
    }
    proof {
        assert(ls.take(0).len() == 0);
    }
    0
}

/// The bytes read and written in the text of `/proc/<pid>/io`.
pub fn parse_proc_io(data: &str) -> (r: (u64, u64))
    ensures
        r.0 == io_field(lines(data@), "read_bytes"@),
        r.1 == io_field(lines(data@), "write_bytes"@),
{
    let all: Vec<String> = split_lines(data);
    (field(&all, "read_bytes"), field(&all, "write_bytes"))
}

/// A process's command name from the text of `/proc/<pid>/comm`; a question
/// mark where it could not be read.
pub fn proc_name(comm: Option<&str>) -> (r: String)
    ensures
        r@ == match comm {
            Some(s) => trimmed(s@),
            None => "?"@,
        },
{
    match comm {
        Some(s) => trim(s),
        None => "?".to_owned(),
    }
}

/// Whether a place holds the last sample of a process.
pub open spec fn io_at(v: Seq<IoSample>, pid: i32, j: int) -> bool {
    0 <= j < v.len() && v[j].pid == pid && forall|k: int| j < k < v.len() ==> (#[trigger] v[k]).pid != pid
}

/// Whether a process read or wrote anything between two samples: its last
/// stands at `i`, the one before it at `j`.
pub open spec fn busy(cur: Seq<IoSample>, prev: Seq<IoSample>, i: int, j: int) -> bool {
    &&& 0 <= i < cur.len()
    &&& io_at(cur, cur[i].pid, i)
    &&& io_at(prev, cur[i].pid, j)
    &&& cur[i].read > prev[j].read || cur[i].write > prev[j].write
}

/// Whether a row is that of the process at `i`, with what it read and wrote in
/// `ns` nanoseconds.
pub open spec fn busy_as(cur: Seq<IoSample>, prev: Seq<IoSample>, i: int, ns: nat, c: ProcIO) -> bool {
    exists|j: int| #[trigger]
        busy(cur, prev, i, j) && c.pid == cur[i].pid && c.name == cur[i].name && paced(
            c.read_per_sec,
            cur[i].read,
            prev[j].read,
            ns,
        ) && paced(c.write_per_sec, cur[i].write, prev[j].write, ns)
}

proof fn lemma_io_found(v: Seq<IoSample>, pid: i32, j: int)
    requires
        io_at(v, pid, j),
    ensures
        io_sample_of(v, pid) == Some(v[j]),
    decreases v.len(),
{
    if j < v.len() - 1 {
        assert(v[v.len() - 1].pid != pid);
        assert forall|k: int| j < k < v.drop_last().len() implies (#[trigger] v.drop_last()[k]).pid != pid by {
            assert(v.drop_last()[k] == v[k]);
        }
        lemma_io_found(v.drop_last(), pid, j);
    }
}

proof fn lemma_io_place(v: Seq<IoSample>, pid: i32) -> (j: int)
    requires
        io_sample_of(v, pid) is Some,
    ensures
        io_at(v, pid, j),
        v[j] == io_sample_of(v, pid)->0,
    decreases v.len(),
{
    if v.last().pid == pid {
        v.len() - 1
    } else {
        let j = lemma_io_place(v.drop_last(), pid);
        assert forall|k: int| j < k < v.len() implies (#[trigger] v[k]).pid != pid by {
            if k < v.len() - 1 {
                assert(v.drop_last()[k] == v[k]);
            }
        }
        j
    }
}

/// Where each listed process comes from.
proof fn lemma_io_sources(v: Seq<IoSample>, prev: Seq<IoSample>, dt: Num, n: nat) -> (from: Seq<int>)
    requires
        n <= v.len(),
    ensures
        from.len() == io_list(v, prev, dt, n).len(),
        forall|k: int|
            0 <= k < from.len() ==> 0 <= #[trigger] from[k] < n && last_io(v, from[k]) && io_since(v[from[k]], prev, dt)
                == Some(io_list(v, prev, dt, n)[k]),
        forall|a: int, b: int| 0 <= a < b < from.len() ==> #[trigger] from[a] < #[trigger] from[b],
        forall|i: int| 0 <= i < n && io_since(#[trigger] v[i], prev, dt) is Some && last_io(v, i) ==> from.contains(i),
    decreases n,
{
    if n == 0 {
        seq![]
    } else {
        let m = (n - 1) as nat;
        let before = lemma_io_sources(v, prev, dt, m);
        if io_since(v[n - 1], prev, dt) is Some && last_io(v, n - 1) {
            let from = before.push(n - 1);
            assert forall|i: int|
                0 <= i < n && io_since(#[trigger] v[i], prev, dt) is Some && last_io(v, i) implies from.contains(i) by {
                if i < n - 1 {
                    assert(before.contains(i));
                    let k = choose|k: int| 0 <= k < before.len() && before[k] == i;
                    assert(from[k] == i);
                } else {
                    assert(from[before.len() as int] == i);
                }
            }
            from
        } else {
            before
        }
    }
}

/// The list of processes after a sample that ends a measurement window holds
/// exactly those that read or wrote anything since their previous sample, in
/// their order: `from` tells which. Each has what it read and wrote over the
/// time that passed.
pub proof fn lemma_busy_processes_listed(
    before: ProcDisk,
    after: ProcDisk,
    samples: Vec<IoSample>,
    restricted: bool,
    now: u64,
) -> (from: Seq<int>)
    requires
        after.took_in(before, samples, restricted, now),
        before.primed,
        now > before.prev_time,
    ensures
        from.len() == after.procs@.len(),
        forall|a: int, b: int| 0 <= a < b < from.len() ==> #[trigger] from[a] < #[trigger] from[b],
        forall|k: int|
            0 <= k < from.len() ==> #[trigger] busy_as(
                samples@,
                before.prev@,
                from[k],
                (now - before.prev_time) as nat,
                after.procs@[k],
            ),
        forall|i: int, j: int| #[trigger] busy(samples@, before.prev@, i, j) ==> from.contains(i),
{
    let ns = (now - before.prev_time) as nat;
    let dt = seconds(ns);
    lemma_seconds_value(ns);
    let v = samples@;
    let prev = before.prev@;
    let from = lemma_io_sources(v, prev, dt, v.len());
    assert forall|k: int| 0 <= k < from.len() implies #[trigger] busy_as(v, prev, from[k], ns, after.procs@[k]) by {
        let s = v[from[k]];
        let j = lemma_io_place(prev, s.pid);
        lemma_paced(s.read, prev[j].read, ns);
        lemma_paced(s.write, prev[j].write, ns);
        assert(busy(v, prev, from[k], j));
    }
    assert forall|i: int, j: int| #[trigger] busy(v, prev, i, j) implies from.contains(i) by {
        lemma_io_found(prev, v[i].pid, j);
        assert(io_since(v[i], prev, dt) is Some);
    }
    from
}

/// A sample that ends no measurement window leaves the list as it was; every
/// sample begins one.
pub proof fn lemma_io_window_needed(before: ProcDisk, after: ProcDisk, samples: Vec<IoSample>, restricted: bool, now: u64)
    requires
        after.took_in(before, samples, restricted, now),
        !before.primed || now <= before.prev_time,
    ensures
        after.procs@ == before.procs@,
        after.primed,
        after.prev == samples,
        after.prev_time == now,
{
    lemma_seconds_value(delta(now, before.prev_time));
}

} // verus!
