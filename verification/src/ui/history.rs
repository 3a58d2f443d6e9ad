//! Histories of samples for the charts.

use crate::num::Num;
use vstd::prelude::*;

verus! {

/// How many samples a history holds at most.
pub const HISTORY_CAP: usize = 600;

/// A history with one more sample; the oldest leave where it grows too long.
pub open spec fn appended(h: Seq<Num>, v: Num) -> Seq<Num> {
    let all = h.push(v);
    if all.len() > HISTORY_CAP {
        all.skip(all.len() - HISTORY_CAP)
    } else {
        all
    }
}

/// Adds a sample to a history; the oldest leave where it grows too long.
pub fn append_history(h: &mut Vec<Num>, v: Num)
    ensures
        final(h)@ == appended(old(h)@, v),
        final(h)@.len() <= HISTORY_CAP,
{
    h.push(v);
    let ghost all = h@;
    proof {
        assert(all.skip(0) =~= all);
    }
    while h.len() > HISTORY_CAP
        invariant
            h@.len() <= all.len(),
            h@ == all.skip(all.len() - h@.len()),
            h@.len() >= HISTORY_CAP || h@ == all,
            h@.len() >= 1,
        decreases h@.len(),
    {
        h.remove(0);
        proof {
            assert(h@ =~= all.skip(all.len() - h@.len()));
        }
    }
}

/// The largest sample, or zero where none is above it; what is no number does
/// not count.
pub open spec fn top(s: Seq<Num>) -> Num
    decreases s.len(),
{
    if s.len() == 0 {
        Num::spec_zero()
    } else {
        top(s.drop_last()).greater(s.last())
    }
}

/// The last `n` samples.
pub open spec fn tail(h: Seq<Num>, n: nat) -> Seq<Num> {
    if h.len() > n {
        h.skip(h.len() - n)
    } else {
        h
    }
}

/// The largest sample is at least each of them and at least zero.
pub proof fn lemma_top(s: Seq<Num>)
    ensures
        top(s).at_least(Num::spec_zero()),
        forall|i: int| 0 <= i < s.len() && !(#[trigger] s[i]).nan() ==> top(s).at_least(s[i]),
    decreases s.len(),
{
    if s.len() > 0 {
        lemma_top(s.drop_last());
        assert forall|i: int| 0 <= i < s.len() && !(#[trigger] s[i]).nan() implies top(s).at_least(s[i]) by {
            if i < s.len() - 1 {
                assert(s.drop_last()[i] == s[i]);
            }
        }
    }
}

/// The largest value in the last `n` samples of a history.
pub fn max_tail(hist: &Vec<Num>, n: usize) -> (r: Num)
    ensures
        r == top(tail(hist@, n as nat)),
        r.at_least(Num::spec_zero()),
{
    let start: usize = if hist.len() > n {
        hist.len() - n
    } else {
        0
    };
    let ghost t = tail(hist@, n as nat);
    let mut m = Num::zero();
    let mut i: usize = start;
    proof {
        assert(t =~= hist@.skip(start as int));
        assert(t.take(0).len() == 0);
    }
    while i < hist.len()
        invariant
            start <= i <= hist@.len(),
            t == hist@.skip(start as int),
            m == top(t.take(i - start)),
        decreases hist@.len() - i,
    {
        proof {
            assert(t.take(i + 1 - start).drop_last() =~= t.take(i - start));
            assert(t.take(i + 1 - start).last() == hist@[i as int]);
        }
        m = m.max_of(hist[i]);
        i = i + 1;
    }
    proof {
        assert(t.take(t.len() as int) =~= t);
        lemma_top(t);
    }
    m
}

/// A history never holds more than its cap, and always its newest sample.
pub proof fn lemma_history_capped(h: Seq<Num>, v: Num)
    ensures
        1 <= appended(h, v).len() <= HISTORY_CAP,
        appended(h, v).last() == v,
        h.len() < HISTORY_CAP ==> appended(h, v) == h.push(v),
{
}

/// A full history loses its oldest sample and keeps the rest in order.
pub proof fn lemma_history_slides(h: Seq<Num>, v: Num, i: int)
    requires
        h.len() == HISTORY_CAP,
        0 <= i < h.len() - 1,
    ensures
        appended(h, v).len() == h.len(),
        appended(h, v)[i] == h[i + 1],
{
}

/// The largest sample is one of them, or zero.
pub proof fn lemma_top_is_a_sample(s: Seq<Num>)
    ensures
        top(s) == Num::spec_zero() || s.contains(top(s)),
    decreases s.len(),
{
    if s.len() > 0 {
        lemma_top_is_a_sample(s.drop_last());
        if top(s) == s.last() {
            assert(s[s.len() - 1] == top(s));
        } else if top(s.drop_last()) != Num::spec_zero() {
            let i = choose|i: int| 0 <= i < s.len() - 1 && s.drop_last()[i] == top(s.drop_last());
            assert(s[i] == top(s));
        }
    }
}

/// The last samples of a history are told from its end.
pub proof fn lemma_tail(h: Seq<Num>, n: nat, k: int)
    requires
        0 < k <= h.len(),
        k <= n,
    ensures
        tail(h, n).len() <= n,
        k <= tail(h, n).len(),
        tail(h, n)[tail(h, n).len() - k] == h[h.len() - k],
{
}

} // verus!
