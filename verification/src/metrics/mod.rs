//! Metric collectors: CPU, memory, GPU, network, disk, per-process I/O and the
//! process table. Each collector is primed with a baseline, then recomputes
//! deltas on update from what was read since.

pub mod cpu;
pub mod disk;
pub mod gpu;
pub mod memory;
pub mod netaddr;
pub mod network;
pub mod procdisk;
pub mod process;
pub mod procnet;
pub mod system;

use crate::num::value::{
    grain, lemma_of_value, lemma_of_within, lemma_product_within, lemma_quotient_within, lemma_round_within,
    lemma_sign_of_value, lemma_sum_value, lemma_value_units, lemma_vast, lemma_zero_stays, size, slight, vast, within,
};
use crate::num::Num;
use vstd::prelude::*;

verus! {

/// The difference of two readings of a counter; a decrease (counter reset or
/// inode reuse) counts as zero.
pub open spec fn delta(cur: u64, prev: u64) -> nat {
    if cur >= prev {
        (cur - prev) as nat
    } else {
        0
    }
}

/// Returns `cur - prev`, treating a decrease as zero rather than a huge spike.
pub fn counter_delta(cur: u64, prev: u64) -> (r: u64)
    ensures
        r == delta(cur, prev),
{
    if cur >= prev {
        cur - prev
    } else {
        0
    }
}

/// A count held to what 64 bits can hold.
pub open spec fn held(n: nat) -> nat {
    if n > u64::MAX {
        u64::MAX as nat
    } else {
        n
    }
}

/// A sum held to what 64 bits can hold.
pub fn plus_held(a: u64, b: u64) -> (r: u64)
    ensures
        r == held((a + b) as nat),
{
    a.saturating_add(b)
}

/// A product held to what 64 bits can hold.
pub fn times_held(a: u64, b: u64) -> (r: u64)
    ensures
        r == held((a * b) as nat),
{
    proof {
        assert(a * b <= u64::MAX * u64::MAX) by (nonlinear_arith)
            requires
                a <= u64::MAX,
                b <= u64::MAX,
        ;
    }
    let p: u128 = a as u128 * b as u128;
    if p > u64::MAX as u128 {
        u64::MAX
    } else {
        p as u64
    }
}

/// The number of seconds in a number of nanoseconds.
pub open spec fn seconds(ns: nat) -> Num {
    Num::of(ns / 1_000_000_000).sum(Num::of(ns % 1_000_000_000).quotient(Num::of(1_000_000_000)))
}

/// The seconds between two points in time, given in nanoseconds.
pub fn elapsed(now: u64, then: u64) -> (r: Num)
    ensures
        r == seconds(delta(now, then)),
{
    let ns: u64 = counter_delta(now, then);
    Num::from_u64(ns / 1_000_000_000).plus(Num::from_u64(ns % 1_000_000_000).over(Num::from_u64(1_000_000_000)))
}

/// A share of a whole in percent.
pub open spec fn percent_of(part: nat, whole: nat) -> Num {
    Num::of(part).quotient(Num::of(whole)).product(Num::of(100))
}

/// A share of a whole in percent.
pub fn percent(part: u64, whole: u64) -> (r: Num)
    ensures
        r == percent_of(part as nat, whole as nat),
{
    Num::from_u64(part).over(Num::from_u64(whole)).times(Num::from_u64(100))
}

/// A count per second.
pub open spec fn per_second(count: nat, dt: Num) -> Num {
    Num::of(count).quotient(dt)
}

/// A count per second.
pub fn rate(count: u64, dt: Num) -> (r: Num)
    ensures
        r == per_second(count as nat, dt),
{
    Num::from_u64(count).over(dt)
}

/// What is at least one part in 2^128 leaves room for rounding.
pub proof fn lemma_enough(x: real)
    requires
        x * 0x1_0000_0000_0000_0000 as real * 0x1_0000_0000_0000_0000 as real >= 1 as real,
    ensures
        x > 0 as real,
        x * slight() >= 1 as real,
{
    vstd::arithmetic::power2::lemma2_to64();
    vstd::arithmetic::power2::lemma_pow2_adds(64, 64);
    vstd::arithmetic::power2::lemma_pow2_adds(128, 64);
    let h = 0x1_0000_0000_0000_0000 as real;
    assert(slight() == h * h * h);
    assert(x > 0 as real && x * (h * h * h) >= 1 as real) by (nonlinear_arith)
        requires
            x * h * h >= 1 as real,
            h >= 1 as real,
    {
        if x <= 0 as real {
            assert(x * h <= 0 as real);
            assert(x * h * h <= 0 as real);
        }
        assert(x * h * h * h >= 1 as real * h);
    }
}

/// Nanoseconds are turned into seconds: within a few parts in 2^53, and to
/// nothing only where no time has passed.
pub proof fn lemma_seconds_value(ns: nat)
    requires
        ns <= u64::MAX,
    ensures
        seconds(ns).finite(),
        !seconds(ns).negative(),
        within(seconds(ns).value(), ns as real / 1_000_000_000 as real, 11 as real),
        Num::spec_zero().less(seconds(ns)) <==> ns > 0,
        ns == 0 ==> seconds(ns).value() == 0 as real,
{
    let (w, f) = (ns / 1_000_000_000, ns % 1_000_000_000);
    let giga = 1_000_000_000 as real;
    lemma_of_value(w);
    lemma_of_value(f);
    lemma_of_value(1_000_000_000);
    lemma_value_units(Num::of(1_000_000_000));
    lemma_value_units(Num::of(w));
    lemma_vast();
    lemma_zero_stays(Num::of(1_000_000_000));
    let q = Num::of(f).quotient(Num::of(1_000_000_000));
    let x = f as real / giga;
    let d = ns as real / giga;
    assert(ns as real == w as real * giga + f as real);
    assert(d == w as real + x) by (nonlinear_arith)
        requires
            d == ns as real / giga,
            x == f as real / giga,
            ns as real == w as real * giga + f as real,
            giga == 1_000_000_000 as real,
    ;
    if f > 0 {
        assert(x * 0x1_0000_0000_0000_0000 as real >= 1 as real && x <= 1 as real && x > 0 as real) by (nonlinear_arith)
            requires
                x == f as real / giga,
                giga == 1_000_000_000 as real,
                f >= 1,
                f < 1_000_000_000,
        ;
        lemma_enough(x);
        lemma_of_within(f);
        lemma_of_within(1_000_000_000);
        lemma_quotient_within(Num::of(f), Num::of(1_000_000_000), f as real, giga, 0 as real, 0 as real);
    } else {
        lemma_value_units(q);
    }
    lemma_value_units(q);
    assert(size(q.value() - x) <= x * (4 as real * grain())) by {
        if f == 0 {
            assert(x == 0 as real) by (nonlinear_arith)
                requires
                    x == 0 as real / giga,
                    giga == 1_000_000_000 as real,
            ;
            assert(0 as real * (4 as real * grain()) == 0 as real) by (nonlinear_arith);
        }
    }
    let t = w as real + q.value();
    assert(x * (4 as real * grain()) <= d * (4 as real * grain())) by (nonlinear_arith)
        requires
            d == w as real + x,
            w as real >= 0 as real,
            grain() > 0 as real,
    ;
    assert(within(t, d, 4 as real));
    assert(x * (4 as real * grain()) <= x) by (nonlinear_arith)
        requires
            x >= 0 as real,
            grain() == 1 as real / 0x20_0000_0000_0000 as real,
    ;
    assert(x >= 0 as real) by (nonlinear_arith)
        requires
            x == f as real / giga,
            giga == 1_000_000_000 as real,
            f >= 0,
    ;
    assert(x <= 1 as real) by (nonlinear_arith)
        requires
            x == f as real / giga,
            giga == 1_000_000_000 as real,
            f < 1_000_000_000,
    ;
    assert(size(t) <= vast());
    lemma_sum_value(Num::of(w), q);
    let r = seconds(ns);
    lemma_sign_of_value(r);
    crate::num::arith::lemma_less_is_value_order(Num::spec_zero(), r);
    crate::num::arith::lemma_zero_units(0);
    crate::num::arith::lemma_zero_units(r.mag());
    if ns > 0 {
        assert(d * 0x1_0000_0000_0000_0000 as real * 0x1_0000_0000_0000_0000 as real >= 1 as real && d > 0 as real)
            by (nonlinear_arith)
            requires
                d == ns as real / giga,
                giga == 1_000_000_000 as real,
                ns >= 1,
        ;
        lemma_enough(d);
        lemma_round_within(r.value(), t, d, 4 as real);
        assert(d * (7 as real * grain()) <= d * (11 as real * grain())) by (nonlinear_arith)
            requires
                d > 0 as real,
                grain() > 0 as real,
        ;
        assert(d * (11 as real * grain()) < d) by (nonlinear_arith)
            requires
                d > 0 as real,
                grain() == 1 as real / 0x20_0000_0000_0000 as real,
        ;
        assert(r.value() > 0 as real);
        lemma_value_units(r);
    } else {
        assert(w == 0 && f == 0);
        assert(t == 0 as real);
        assert(d == 0 as real) by (nonlinear_arith)
            requires
                d == 0 as real / giga,
                giga == 1_000_000_000 as real,
        ;
        assert(0 as real * (11 as real * grain()) == 0 as real) by (nonlinear_arith);
        assert(!Num::of(w).negative());
        lemma_value_units(r);
    }
}

/// A rate is what was counted over the time that passed: `count` in `ns`
/// nanoseconds, within a few parts in 2^53.
pub proof fn lemma_rate_value(count: nat, ns: nat)
    requires
        count <= u64::MAX,
        0 < ns <= u64::MAX,
    ensures
        per_second(count, seconds(ns)).finite(),
        !per_second(count, seconds(ns)).negative(),
        within(
            per_second(count, seconds(ns)).value(),
            count as real / (ns as real / 1_000_000_000 as real),
            18 as real,
        ),
        count == 0 ==> per_second(count, seconds(ns)) == Num::spec_zero(),
{
    lemma_seconds_value(ns);
    let dt = seconds(ns);
    lemma_value_units(dt);
    let giga = 1_000_000_000 as real;
    let d = ns as real / giga;
    let y = count as real;
    let x = y / d;
    lemma_vast();
    assert(d > 0 as real && d <= 0x1_0000_0000_0000_0000 as real && d * giga >= 1 as real) by (nonlinear_arith)
        requires
            d == ns as real / giga,
            giga == 1_000_000_000 as real,
            ns >= 1,
            ns <= u64::MAX,
    ;
    assert(dt.mag() > 0);
    if count > 0 {
        lemma_of_within(count);
        assert(x * 0x1_0000_0000_0000_0000 as real >= 1 as real && x <= y * giga) by (nonlinear_arith)
            requires
                x == y / d,
                y >= 1 as real,
                d > 0 as real,
                d <= 0x1_0000_0000_0000_0000 as real,
                d * giga >= 1 as real,
        {
            assert(x * d == y);
            assert(x > 0 as real);
            assert(x * d <= x * 0x1_0000_0000_0000_0000 as real);
            assert(x * (d * giga) == y * giga);
            assert(x * (d * giga) >= x);
        }
        lemma_enough(x);
        lemma_quotient_within(Num::of(count), dt, y, d, 3 as real, 11 as real);
    } else {
        lemma_zero_stays(dt);
        lemma_value_units(Num::spec_zero());
        assert(x == 0 as real && x * (18 as real * grain()) == 0 as real) by (nonlinear_arith)
            requires
                x == 0 as real / d,
                d > 0 as real,
        ;
    }
}

/// A share in percent is a hundred times the part over the whole, within a few
/// parts in 2^53; none is 0 and all is 100.
pub proof fn lemma_percent_value(part: nat, whole: nat)
    requires
        part <= u64::MAX,
        0 < whole <= u64::MAX,
    ensures
        percent_of(part, whole).finite(),
        !percent_of(part, whole).negative(),
        within(percent_of(part, whole).value(), part as real / whole as real * 100 as real, 14 as real),
        part == 0 ==> percent_of(part, whole) == Num::spec_zero(),
        part == whole ==> percent_of(part, whole) == Num::of(100),
{
    lemma_of_within(whole);
    lemma_of_value(100);
    lemma_of_within(100);
    lemma_value_units(Num::of(whole));
    lemma_vast();
    let (a, b) = (part as real, whole as real);
    let x = a / b;
    let q = Num::of(part).quotient(Num::of(whole));
    assert(b * (3 as real * grain()) < b) by (nonlinear_arith)
        requires
            b >= 1 as real,
            grain() == 1 as real / 0x20_0000_0000_0000 as real,
    ;
    if part > 0 {
        lemma_of_within(part);
        assert(x * 0x1_0000_0000_0000_0000 as real >= 1 as real && x <= a) by (nonlinear_arith)
            requires
                x == a / b,
                a >= 1 as real,
                b >= 1 as real,
                b <= 0x1_0000_0000_0000_0000 as real,
        {
            assert(x * b == a);
            assert(x > 0 as real);
            assert(x * b <= x * 0x1_0000_0000_0000_0000 as real);
            assert(x * b >= x);
        }
        lemma_enough(x);
        lemma_quotient_within(Num::of(part), Num::of(whole), a, b, 3 as real, 3 as real);
        let y = x * 100 as real;
        lemma_enough(y);
        lemma_product_within(q, Num::of(100), x, 100 as real, 10 as real, 0 as real);
        if part == whole {
            let one = Num::of(1);
            lemma_of_value(1);
            let p = vstd::arithmetic::power2::pow2(1074);
            vstd::arithmetic::power2::lemma_pow2_pos(1074);
            let u = Num::of(whole).units();
            crate::num::arith::lemma_zero_units(Num::of(whole).mag());
            crate::num::value::lemma_nearest_exact(one.mag(), u);
            assert(u * p == one.units() * u) by (nonlinear_arith)
                requires
                    one.units() == 1 * p,
            ;
            assert(q.mag() == one.mag());
            crate::num::value::lemma_nearest_exact(Num::of(100).mag(), p);
            assert(one.units() * Num::of(100).units() == Num::of(100).units() * p) by (nonlinear_arith)
                requires
                    one.units() == 1 * p,
            ;
        }
    } else {
        lemma_zero_stays(Num::of(whole));
        lemma_zero_stays(Num::of(100));
        lemma_value_units(Num::spec_zero());
        assert(x * 100 as real == 0 as real && (x * 100 as real) * (14 as real * grain()) == 0 as real)
            by (nonlinear_arith)
            requires
                x == 0 as real / b,
                b >= 1 as real,
        ;
    }
}

/// Whether a rate is what a counter grew by over the time that passed, up to
/// what rounding moves; nothing where it did not grow.
pub open spec fn paced(r: Num, cur: u64, prev: u64, ns: nat) -> bool {
    &&& r.finite()
    &&& cur > prev ==> r.value() > 0 as real && within(
        r.value(),
        (cur - prev) as real / (ns as real / 1_000_000_000 as real),
        18 as real,
    )
    &&& cur <= prev ==> r == Num::spec_zero()
}

/// Rates of counters are paced.
pub proof fn lemma_paced(cur: u64, prev: u64, ns: nat)
    requires
        0 < ns <= u64::MAX,
    ensures
        paced(per_second(delta(cur, prev), seconds(ns)), cur, prev, ns),
{
    lemma_rate_value(delta(cur, prev), ns);
    if cur > prev {
        let n = (cur - prev) as real;
        let d = ns as real / 1_000_000_000 as real;
        let x = n / d;
        assert(x > 0 as real) by (nonlinear_arith)
            requires
                x == n / d,
                n >= 1 as real,
                d == ns as real / 1_000_000_000 as real,
                ns as real >= 1 as real,
        {
            assert(d > 0 as real);
        }
        assert(x * (18 as real * grain()) < x) by (nonlinear_arith)
            requires
                x > 0 as real,
                grain() == 1 as real / 0x20_0000_0000_0000 as real,
        ;
    }
}

} // verus!
