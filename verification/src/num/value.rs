//! The real values of numbers, and how far rounding moves them.

use super::round::{half_even, lemma_steps_closed, nearest, steps};
use super::{scale, significand, units_of, Num, BINADE, INFINITE};
use vstd::arithmetic::power2::{lemma2_to64, lemma2_to64_rest, lemma_pow2_adds, lemma_pow2_pos, lemma_pow2_unfold, pow2};
use vstd::prelude::*;

verus! {

/// The binade of a ratio: the steps there reach it.
proof fn lemma_find_binade(n: nat, d: nat) -> (k: nat)
    requires
        d > 0,
    ensures
        k == 0 || n >= d * pow2(52 + k),
        n < d * pow2(53 + k),
    decreases n - d,
{
    lemma2_to64();
    lemma2_to64_rest();
    if n < d * 0x20_0000_0000_0000 {
        0
    } else {
        let j = lemma_find_binade(n, 2 * d);
        lemma_pow2_unfold(53 + j);
        lemma_pow2_unfold(54 + j);
        assert((2 * d) * pow2(53 + j) == d * pow2(54 + j)) by (nonlinear_arith)
            requires
                pow2(54 + j) == 2 * pow2(53 + j),
        ;
        assert((2 * d) * pow2(52 + j) == d * pow2(53 + j)) by (nonlinear_arith)
            requires
                pow2(53 + j) == 2 * pow2(52 + j),
        ;
        j + 1
    }
}

/// What half of a step is at most off.
proof fn lemma_half_even_close(n: nat, d: nat)
    requires
        d > 0,
    ensures
        2 * (half_even(n, d) * d) <= 2 * n + d,
        2 * n <= 2 * (half_even(n, d) * d) + d,
{
    let q = n / d;
    let r = n % d;
    vstd::arithmetic::div_mod::lemma_fundamental_div_mod(n as int, d as int);
    assert((q + 1) * d == d * q + d && q * d == d * q) by (nonlinear_arith);
}

/// A significand at a scale stands for that many steps.
proof fn lemma_units_at(k: nat, h: nat)
    requires
        h <= 0x20_0000_0000_0000,
        k == 0 || h >= BINADE,
    ensures
        units_of(k * BINADE as nat + h) == h * pow2(k),
{
    lemma2_to64();
    let b = BINADE as nat;
    let m = k * b + h;
    if h < b {
        assert(k == 0);
        assert(m == h);
    } else if h < 2 * b {
        vstd::arithmetic::div_mod::lemma_fundamental_div_mod_converse(
            m as int,
            b as int,
            k + 1int,
            h - b,
        );
        assert(scale(m) == k && significand(m) == h);
    } else {
        vstd::arithmetic::div_mod::lemma_fundamental_div_mod_converse(m as int, b as int, k + 2int, 0);
        assert(scale(m) == k + 1 && significand(m) == b);
        lemma_pow2_unfold(k + 1);
        assert(b * pow2(k + 1) == h * pow2(k)) by (nonlinear_arith)
            requires
                h == 2 * b,
                pow2(k + 1) == 2 * pow2(k),
        ;
    }
}

/// Rounding in closed form: in the binade of the ratio, to the nearest step.
proof fn lemma_steps_form(n: nat, d: nat) -> (k: nat)
    requires
        d > 0,
    ensures
        k == 0 || n >= d * pow2(52 + k),
        n < d * pow2(53 + k),
        d * pow2(k) > 0,
        steps(n, d, 0) == k * BINADE as nat + half_even(n, d * pow2(k)),
        half_even(n, d * pow2(k)) <= 0x20_0000_0000_0000,
        k == 0 || half_even(n, d * pow2(k)) >= BINADE,
        units_of(steps(n, d, 0)) == half_even(n, d * pow2(k)) * pow2(k),
{
    lemma2_to64();
    lemma2_to64_rest();
    let k = lemma_find_binade(n, d);
    lemma_steps_closed(n, d, 0, k);
    lemma_pow2_pos(k);
    let e = d * pow2(k);
    assert(e > 0) by (nonlinear_arith)
        requires
            e == d * pow2(k),
            d > 0,
            pow2(k) > 0,
    ;
    lemma_pow2_adds(k, 53);
    lemma_pow2_adds(k, 52);
    let h = half_even(n, e);
    let q = n / e;
    vstd::arithmetic::div_mod::lemma_fundamental_div_mod(n as int, e as int);
    assert(d * pow2(53 + k) == e * 0x20_0000_0000_0000) by (nonlinear_arith)
        requires
            e == d * pow2(k),
            pow2(53 + k) == pow2(k) * 0x20_0000_0000_0000,
    ;
    assert(q < 0x20_0000_0000_0000) by (nonlinear_arith)
        requires
            n < e * 0x20_0000_0000_0000,
            n >= e * q,
            e > 0,
    ;
    if k > 0 {
        assert(d * pow2(52 + k) == e * 0x10_0000_0000_0000) by (nonlinear_arith)
            requires
                e == d * pow2(k),
                pow2(52 + k) == pow2(k) * 0x10_0000_0000_0000,
        ;
        assert(q >= 0x10_0000_0000_0000) by (nonlinear_arith)
            requires
                n >= e * 0x10_0000_0000_0000,
                n < e * q + e,
                e > 0,
        ;
    }
    lemma_units_at(k, h);
    k
}

/// Rounding moves a ratio by at most half a unit or one part in 2^53.
pub proof fn lemma_nearest_close(n: nat, d: nat)
    requires
        d > 0,
        nearest(n, d) < INFINITE,
    ensures
        ({
            let u = units_of(nearest(n, d)) * d;
            let off = if u > n {
                u - n
            } else {
                n - u
            };
            2 * off <= d || 0x20_0000_0000_0000 * off <= n
        }),
{
    lemma2_to64();
    lemma2_to64_rest();
    let k = lemma_steps_form(n, d);
    let e = d * pow2(k);
    let h = half_even(n, e);
    lemma_half_even_close(n, e);
    let u = units_of(nearest(n, d)) * d;
    assert(u == h * e) by (nonlinear_arith)
        requires
            u == (h * pow2(k)) * d,
            e == d * pow2(k),
    ;
    let off = if u > n {
        u - n
    } else {
        n - u
    };
    assert(2 * off <= e);
    if k == 0 {
        assert(e == d) by (nonlinear_arith)
            requires
                e == d * pow2(0),
                pow2(0) == 1,
        ;
    } else {
        lemma_pow2_adds(k, 52);
        assert(n >= e * 0x10_0000_0000_0000) by (nonlinear_arith)
            requires
                n >= d * pow2(52 + k),
                e == d * pow2(k),
                pow2(52 + k) == pow2(k) * 0x10_0000_0000_0000,
        ;
    }
}

/// A greater ratio does not round to less.
pub proof fn lemma_nearest_monotone(n1: nat, d1: nat, n2: nat, d2: nat)
    requires
        d1 > 0,
        d2 > 0,
        n1 * d2 <= n2 * d1,
    ensures
        nearest(n1, d1) <= nearest(n2, d2),
{
    let k1 = lemma_steps_form(n1, d1);
    let k2 = lemma_steps_form(n2, d2);
    if k1 > k2 {
        lemma_pow2_adds(53 + k2, (k1 - k2 - 1) as nat);
        lemma_pow2_pos((k1 - k2 - 1) as nat);
        let p = pow2(53 + k2);
        let g = pow2((k1 - k2 - 1) as nat);
        assert(52 + k1 == 53 + k2 + (k1 - k2 - 1) as nat);
        assert(false) by (nonlinear_arith)
            requires
                n1 >= d1 * (p * g),
                g >= 1,
                p >= 0,
                n2 < d2 * p,
                n1 * d2 <= n2 * d1,
                d1 > 0,
                d2 > 0,
        {
            assert(d1 * (p * g) >= d1 * p);
            assert(n1 * d2 >= d1 * p * d2);
            assert(n2 * d1 < d2 * p * d1);
        }
    } else if k1 == k2 {
        let e1 = d1 * pow2(k1);
        let e2 = d2 * pow2(k2);
        assert(n1 * e2 <= n2 * e1) by (nonlinear_arith)
            requires
                n1 * d2 <= n2 * d1,
                e1 == d1 * pow2(k1),
                e2 == d2 * pow2(k1),
                pow2(k1) >= 0,
        {
            lemma_pow2_pos(k1);
            assert((n1 * d2) * pow2(k1) <= (n2 * d1) * pow2(k1));
        }
        lemma_half_even_monotone(n1, e1, n2, e2);
    } else {
        let b = BINADE as nat;
        assert(k1 * b + 2 * b <= k2 * b + b) by (nonlinear_arith)
            requires
                k1 + 1 <= k2,
                b >= 0,
        ;
    }
}

proof fn lemma_half_even_monotone(n1: nat, d1: nat, n2: nat, d2: nat)
    requires
        d1 > 0,
        d2 > 0,
        n1 * d2 <= n2 * d1,
    ensures
        half_even(n1, d1) <= half_even(n2, d2),
{
    let (q1, r1) = (n1 / d1, n1 % d1);
    let (q2, r2) = (n2 / d2, n2 % d2);
    vstd::arithmetic::div_mod::lemma_fundamental_div_mod(n1 as int, d1 as int);
    vstd::arithmetic::div_mod::lemma_fundamental_div_mod(n2 as int, d2 as int);
    assert(q1 <= q2) by (nonlinear_arith)
        requires
            n1 * d2 <= n2 * d1,
            n1 == d1 * q1 + r1,
            n2 == d2 * q2 + r2,
            0 <= r1 < d1,
            0 <= r2 < d2,
            d1 > 0,
            d2 > 0,
    {
        if q1 >= q2 + 1 {
            assert(n1 * d2 >= d1 * q1 * d2);
            assert(d1 * q1 * d2 >= d1 * (q2 + 1) * d2);
            assert(n2 * d1 < (d2 * q2 + d2) * d1);
        }
    }
    if q1 == q2 {
        assert(r1 * d2 <= r2 * d1) by (nonlinear_arith)
            requires
                n1 * d2 <= n2 * d1,
                n1 == d1 * q1 + r1,
                n2 == d2 * q1 + r2,
        {
            assert(n1 * d2 == d1 * q1 * d2 + r1 * d2);
            assert(n2 * d1 == d2 * q1 * d1 + r2 * d1);
        }
        assert(2 * r1 > d1 ==> 2 * r2 > d2) by (nonlinear_arith)
            requires
                r1 * d2 <= r2 * d1,
                d1 > 0,
                d2 > 0,
        {
            if 2 * r1 > d1 && 2 * r2 <= d2 {
                assert(2 * r1 * d2 > d1 * d2);
                assert(2 * r2 * d1 <= d2 * d1);
            }
        }
        assert(2 * r1 == d1 ==> 2 * r2 >= d2) by (nonlinear_arith)
            requires
                r1 * d2 <= r2 * d1,
                d1 > 0,
                d2 > 0,
        {
            if 2 * r1 == d1 && 2 * r2 < d2 {
                assert(2 * r1 * d2 == d1 * d2);
                assert(2 * r2 * d1 < d2 * d1);
            }
        }
    }
}

/// What a magnitude stands for rounds to that magnitude.
pub proof fn lemma_nearest_exact(m: nat, d: nat)
    requires
        m < INFINITE,
        d > 0,
    ensures
        nearest(units_of(m) * d, d) == m,
{
    let n = units_of(m) * d;
    let k = lemma_steps_form(n, d);
    let x = nearest(n, d);
    let y = steps(n, d, 0);
    let e = d * pow2(k);
    let h = half_even(n, e);
    // The value is a whole number of steps, so rounding leaves it.
    lemma_whole_steps(m, n, d, k);
    assert(units_of(y) == units_of(m)) by {
        lemma_half_even_whole(units_of(m) / pow2(k), e, n);
    }
    super::arith::lemma_units_injective(y, m);
}

proof fn lemma_half_even_whole(q: nat, e: nat, n: nat)
    requires
        e > 0,
        n == q * e,
    ensures
        half_even(n, e) == q,
{
    assert(n == e * q) by (nonlinear_arith)
        requires
            n == q * e,
    ;
    vstd::arithmetic::div_mod::lemma_fundamental_div_mod_converse(n as int, e as int, q as int, 0);
}

/// In its binade a magnitude's value is a whole number of steps.
proof fn lemma_whole_steps(m: nat, n: nat, d: nat, k: nat)
    requires
        d > 0,
        n == units_of(m) * d,
        k == 0 || n >= d * pow2(52 + k),
        n < d * pow2(53 + k),
    ensures
        n == (units_of(m) / pow2(k)) * (d * pow2(k)),
        units_of(m) == (units_of(m) / pow2(k)) * pow2(k),
{
    lemma2_to64();
    lemma2_to64_rest();
    let u = units_of(m);
    let (s, c) = (significand(m), scale(m));
    super::arith::lemma_magnitude_parts(m);
    assert(k == 0 || u >= pow2(52 + k)) by (nonlinear_arith)
        requires
            k == 0 || u * d >= d * pow2(52 + k),
            d > 0,
    ;
    if k > c {
        lemma_pow2_adds(53 + c, (k - c - 1) as nat);
        lemma_pow2_pos((k - c - 1) as nat);
        lemma_pow2_adds(c, 53);
        assert(52 + k == 53 + c + (k - c - 1) as nat);
        lemma_pow2_pos(c);
        assert(false) by (nonlinear_arith)
            requires
                u == s * pow2(c),
                s < 0x20_0000_0000_0000,
                pow2(c) > 0,
                pow2(53 + c) == pow2(c) * 0x20_0000_0000_0000,
                u >= pow2(53 + c) * pow2((k - c - 1) as nat),
                pow2((k - c - 1) as nat) >= 1,
        {
            assert(pow2(53 + c) * pow2((k - c - 1) as nat) >= pow2(53 + c));
            assert(s * pow2(c) < 0x20_0000_0000_0000 * pow2(c));
        }
    }
    lemma_pow2_adds(k, (c - k) as nat);
    lemma_pow2_pos(k);
    let q = s * pow2((c - k) as nat);
    assert(u == pow2(k) * q) by (nonlinear_arith)
        requires
            u == s * pow2(c),
            pow2(c) == pow2(k) * pow2((c - k) as nat),
            q == s * pow2((c - k) as nat),
    ;
    vstd::arithmetic::div_mod::lemma_fundamental_div_mod_converse(u as int, pow2(k) as int, q as int, 0);
    assert(n == q * (d * pow2(k))) by (nonlinear_arith)
        requires
            n == u * d,
            u == pow2(k) * q,
    ;
    assert(u == q * pow2(k)) by (nonlinear_arith)
        requires
            u == pow2(k) * q,
    ;
}

/// One part in 2^53.
pub open spec fn grain() -> real {
    1 as real / 0x20_0000_0000_0000 as real
}

/// Half of the smallest positive number.
pub open spec fn speck() -> real {
    1 as real / (2 * pow2(1074)) as real
}

/// The absolute value of a real number.
pub open spec fn size(x: real) -> real {
    if x < 0 as real {
        -x
    } else {
        x
    }
}

/// Whether a result differs from the exact one by no more than one rounding
/// does.
pub open spec fn near(r: real, x: real) -> bool {
    size(r - x) <= size(x) * grain() + speck()
}

impl Num {
    /// The real number that a finite number stands for.
    pub open spec fn value(self) -> real {
        self.signed_units() as real / pow2(1074) as real
    }
}

/// A ratio no greater than 2^100 rounds to a finite magnitude.
proof fn lemma_nearest_finite(n: nat, d: nat)
    requires
        d > 0,
        n <= d * pow2(1174),
    ensures
        nearest(n, d) < INFINITE,
{
    lemma2_to64();
    lemma2_to64_rest();
    lemma_units_at(1122, BINADE as nat);
    lemma_pow2_adds(52, 1122);
    let m = (1123 * BINADE) as nat;
    assert(units_of(m) == pow2(1174));
    lemma_nearest_exact(m, 1);
    assert(units_of(m) * 1 == units_of(m));
    assert(n * 1 <= pow2(1174) * d) by (nonlinear_arith)
        requires
            n <= d * pow2(1174),
    ;
    lemma_nearest_monotone(n, d, pow2(1174), 1);
}

/// Rounding a ratio, as real numbers.
proof fn lemma_rounded(n: nat, d: nat)
    requires
        d > 0,
        nearest(n, d) < INFINITE,
    ensures
        near(
            units_of(nearest(n, d)) as real / pow2(1074) as real,
            n as real / (d as real * pow2(1074) as real),
        ),
        n as real / (d as real * pow2(1074) as real) >= 0 as real,
{
    lemma_nearest_close(n, d);
    lemma_pow2_pos(1074);
    let u = units_of(nearest(n, d));
    let p = pow2(1074) as real;
    let (a, x, y) = (u as real, n as real, d as real);
    assert((u * d) as real == a * y) by (nonlinear_arith)
        requires
            a == u as real,
            y == d as real,
    ;
    let e = x / (y * p);
    let v = a / p;
    assert(e * (y * p) == x && e >= 0 as real) by (nonlinear_arith)
        requires
            e == x / (y * p),
            y > 0 as real,
            p > 0 as real,
            x >= 0 as real,
    ;
    assert(v * p == a) by (nonlinear_arith)
        requires
            v == a / p,
            p > 0 as real,
    ;
    let t = speck();
    assert(t * (2 as real * p) == 1 as real) by (nonlinear_arith)
        requires
            t == 1 as real / (2 as real * p),
            p > 0 as real,
    ;
    let g = grain();
    let off = size(a * y - x);
    // One of the two bounds, over the common denominator.
    assert(2 as real * off <= y || 0x20_0000_0000_0000 as real * off <= x);
    let diff = size(v - e);
    assert(diff * (y * p) == off) by (nonlinear_arith)
        requires
            v * p == a,
            e * (y * p) == x,
            y > 0 as real,
            p > 0 as real,
            diff == (if v - e < 0 as real {
                -(v - e)
            } else {
                v - e
            }),
            off == (if a * y - x < 0 as real {
                -(a * y - x)
            } else {
                a * y - x
            }),
    {
        assert((v - e) * (y * p) == a * y - x);
        assert(y * p > 0 as real);
    }
    assert(diff <= e * g + t) by (nonlinear_arith)
        requires
            2 as real * off <= y || 0x20_0000_0000_0000 as real * off <= x,
            diff * (y * p) == off,
            e * (y * p) == x,
            e >= 0 as real,
            y > 0 as real,
            p > 0 as real,
            t * (2 as real * p) == 1 as real,
            g == 1 as real / 0x20_0000_0000_0000 as real,
    {
        assert(y * p > 0 as real);
        assert(t > 0 as real);
        if 2 as real * off <= y {
            assert(diff * (2 as real * p) * y <= y);
            assert(diff * (2 as real * p) <= 1 as real);
            assert(diff <= t);
            assert(e * g >= 0 as real);
        } else {
            assert(0x20_0000_0000_0000 as real * (diff * (y * p)) <= e * (y * p));
            assert(0x20_0000_0000_0000 as real * diff <= e);
        }
    }
}

/// 2^100: results of this size are far from overflow.
pub open spec fn vast() -> real {
    pow2(100) as real
}

/// A finite number without a minus sign stands for its units.
pub proof fn lemma_value_units(a: Num)
    requires
        !a.negative(),
    ensures
        a.value() == a.units() as real / pow2(1074) as real,
        a.value() >= 0 as real,
        a.value() * pow2(1074) as real == a.units() as real,
        (a.value() == 0 as real) == (a.mag() == 0),
{
    lemma_pow2_pos(1074);
    let p = pow2(1074) as real;
    let u = a.units() as real;
    super::arith::lemma_zero_units(a.mag());
    assert(u / p >= 0 as real && (u / p) * p == u) by (nonlinear_arith)
        requires
            u >= 0 as real,
            p > 0 as real,
    ;
    assert((u / p == 0 as real) == (u == 0 as real)) by (nonlinear_arith)
        requires
            (u / p) * p == u,
            p > 0 as real,
    ;
}

/// A natural number that 53 bits hold is held exactly; any of 64 bits is one
/// rounding away.
pub proof fn lemma_of_value(n: nat)
    requires
        n <= u64::MAX,
    ensures
        Num::of(n).finite(),
        !Num::of(n).negative(),
        near(Num::of(n).value(), n as real),
        n <= 0x20_0000_0000_0000 ==> Num::of(n).value() == n as real && Num::of(n).units() == n * pow2(1074),
{
    lemma2_to64();
    lemma2_to64_rest();
    let p = pow2(1074);
    lemma_pow2_pos(1074);
    lemma_pow2_adds(100, 1074);
    lemma_pow2_adds(64, 36);
    lemma_pow2_pos(36);
    assert(n * p <= 1 * pow2(1174)) by (nonlinear_arith)
        requires
            n <= u64::MAX,
            u64::MAX < pow2(64),
            pow2(100) == pow2(64) * pow2(36),
            pow2(36) >= 1,
            pow2(1174) == pow2(100) * p,
            p > 0,
    {
        assert(pow2(64) * pow2(36) >= pow2(64));
        assert(n * p <= pow2(100) * p);
    }
    lemma_nearest_finite(n * p, 1);
    lemma_rounded(n * p, 1);
    let m = nearest(n * p, 1);
    let x = (n * p) as real / (1 as real * p as real);
    assert(x == n as real) by (nonlinear_arith)
        requires
            x == (n * p) as real / (1 as real * p as real),
            p > 0,
    {
        assert((n * p) as real == n as real * p as real);
    }
    assert(1nat as real == 1 as real);
    assert(Num::of(n).mag() == m);
    if n <= 0x20_0000_0000_0000 {
        let k = lemma_steps_form(n * p, 1);
        let e = 1 * pow2(k);
        lemma_pow2_pos(k);
        if k > 1075 {
            lemma_pow2_adds(53, 1075);
            lemma_pow2_adds(54, 1074);
            if k > 1076 {
                vstd::arithmetic::power2::lemma_pow2_strictly_increases(52 + 1076, 52 + k);
            }
            assert(1 * pow2(52 + k) == pow2(52 + k));
            assert(pow2(54) == 0x40_0000_0000_0000);
            assert(false) by (nonlinear_arith)
                requires
                    n * p >= pow2(1128),
                    pow2(1128) == 0x40_0000_0000_0000 * p,
                    n <= 0x20_0000_0000_0000,
                    p > 0,
            ;
        }
        let q = if k <= 1074 {
            n * pow2((1074 - k) as nat)
        } else {
            0x10_0000_0000_0000
        };
        if k <= 1074 {
            lemma_pow2_adds(k, (1074 - k) as nat);
            assert(n * p == q * e) by (nonlinear_arith)
                requires
                    q == n * pow2((1074 - k) as nat),
                    p == pow2(k) * pow2((1074 - k) as nat),
                    e == pow2(k),
            ;
        } else {
            lemma_pow2_unfold(1075);
            lemma_pow2_adds(53, 1074);
            assert(1 * pow2(52 + k) == pow2(52 + k));
            assert(n == 0x20_0000_0000_0000) by (nonlinear_arith)
                requires
                    n * p >= 0x20_0000_0000_0000 * p,
                    n <= 0x20_0000_0000_0000,
                    p > 0,
            ;
            assert(n * p == q * e);
        }
        lemma_half_even_whole(q, e, n * p);
        assert(units_of(m) == n * p) by (nonlinear_arith)
            requires
                units_of(m) == q * pow2(k),
                n * p == q * e,
                e == pow2(k),
        ;
    }
}

/// A quotient is one rounding away from the exact one.
pub proof fn lemma_quotient_value(a: Num, b: Num)
    requires
        a.finite(),
        b.finite(),
        !a.negative(),
        !b.negative(),
        b.value() > 0 as real,
        a.value() <= vast() * b.value(),
    ensures
        a.quotient(b).finite(),
        !a.quotient(b).negative(),
        near(a.quotient(b).value(), a.value() / b.value()),
        a.value() / b.value() >= 0 as real,
{
    lemma_value_units(a);
    lemma_value_units(b);
    lemma_pow2_pos(1074);
    let p = pow2(1074);
    let (ua, ub) = (a.units(), b.units());
    let (va, vb, pr) = (a.value(), b.value(), p as real);
    lemma_pow2_adds(100, 1074);
    super::arith::lemma_zero_units(b.mag());
    assert(ub > 0);
    assert(ua as real <= vast() * ub as real) by (nonlinear_arith)
        requires
            va <= vast() * vb,
            va * pr == ua as real,
            vb * pr == ub as real,
            pr > 0 as real,
    {
        assert(va * pr <= vast() * vb * pr);
    }
    assert(ua <= pow2(100) * ub) by (nonlinear_arith)
        requires
            ua as real <= pow2(100) as real * ub as real,
    {
        assert((pow2(100) * ub) as real == pow2(100) as real * ub as real);
    }
    assert(ua * p <= ub * pow2(1174)) by (nonlinear_arith)
        requires
            ua <= pow2(100) * ub,
            pow2(1174) == pow2(100) * p,
    ;
    lemma_nearest_finite(ua * p, ub);
    lemma_rounded(ua * p, ub);
    let x = (ua * p) as real / (ub as real * pr);
    assert(x == va / vb) by (nonlinear_arith)
        requires
            x == (ua * p) as real / (ub as real * pr),
            va * pr == ua as real,
            vb * pr == ub as real,
            pr == p as real,
            pr > 0 as real,
            vb > 0 as real,
    {
        assert((ua * p) as real == ua as real * pr);
        let y = va / vb;
        assert(y * vb == va);
        assert(ub as real * pr > 0 as real);
        assert(y * (ub as real * pr) == ua as real * pr);
    }
    assert(a.quotient(b).mag() == nearest(ua * p, ub));
}

/// A product is one rounding away from the exact one.
pub proof fn lemma_product_value(a: Num, b: Num)
    requires
        a.finite(),
        b.finite(),
        !a.negative(),
        !b.negative(),
        a.value() * b.value() <= vast(),
    ensures
        a.product(b).finite(),
        !a.product(b).negative(),
        near(a.product(b).value(), a.value() * b.value()),
{
    lemma_value_units(a);
    lemma_value_units(b);
    lemma_pow2_pos(1074);
    let p = pow2(1074);
    let (ua, ub) = (a.units(), b.units());
    let (va, vb, pr) = (a.value(), b.value(), p as real);
    lemma_pow2_adds(100, 1074);
    assert(ua as real * ub as real <= vast() * pr * pr) by (nonlinear_arith)
        requires
            va * vb <= vast(),
            va * pr == ua as real,
            vb * pr == ub as real,
            pr > 0 as real,
    {
        assert(ua as real * ub as real == (va * vb) * (pr * pr));
        assert(pr * pr > 0 as real);
    }
    assert(ua * ub <= p * pow2(1174)) by (nonlinear_arith)
        requires
            ua as real * ub as real <= pow2(100) as real * pr * pr,
            pr == p as real,
            pow2(1174) == pow2(100) * p,
    {
        assert((ua * ub) as real == ua as real * ub as real);
        assert((p * (pow2(100) * p)) as real == pr * (pow2(100) as real * pr));
    }
    lemma_nearest_finite(ua * ub, p);
    lemma_rounded(ua * ub, p);
    let x = (ua * ub) as real / (pr * pr);
    assert(x == va * vb) by (nonlinear_arith)
        requires
            x == (ua * ub) as real / (pr * pr),
            va * pr == ua as real,
            vb * pr == ub as real,
            pr > 0 as real,
    {
        assert((ua * ub) as real == ua as real * ub as real);
        assert(ua as real * ub as real == (va * vb) * (pr * pr));
        assert(pr * pr > 0 as real);
    }
    assert(a.product(b).mag() == nearest(ua * ub, p));
}

/// A sum is one rounding away from the exact one, and has its sign.
pub proof fn lemma_sum_value(a: Num, b: Num)
    requires
        a.finite(),
        b.finite(),
        size(a.value() + b.value()) <= vast(),
    ensures
        a.sum(b).finite(),
        near(a.sum(b).value(), a.value() + b.value()),
        a.value() + b.value() > 0 as real ==> !a.sum(b).negative(),
        a.value() + b.value() < 0 as real ==> a.sum(b).negative(),
        a.value() + b.value() == 0 as real ==> a.sum(b).value() == 0 as real,
        a.value() + b.value() == 0 as real && !(a.negative() && b.negative()) ==> !a.sum(b).negative(),
{
    lemma_pow2_pos(1074);
    lemma2_to64();
    let p = pow2(1074) as real;
    let (sa, sb) = (a.signed_units(), b.signed_units());
    let t = sa + sb;
    let x = a.value() + b.value();
    assert(x * p == t as real && (x > 0 as real) == (t > 0) && (x < 0 as real) == (t < 0)) by (nonlinear_arith)
        requires
            x == sa as real / p + sb as real / p,
            t == sa + sb,
            p > 0 as real,
    {
        assert((sa as real / p) * p == sa as real);
        assert((sb as real / p) * p == sb as real);
        assert(t as real == sa as real + sb as real);
    }
    let n = (if t < 0 {
        -t
    } else {
        t
    }) as nat;
    lemma_pow2_adds(100, 1074);
    assert(n as real <= vast() * p) by (nonlinear_arith)
        requires
            x * p == t as real,
            size(x) <= vast(),
            p > 0 as real,
            n == (if t < 0 {
                -t
            } else {
                t
            }),
    {
        assert(size(x) * p <= vast() * p);
    }
    assert(n <= 1 * pow2(1174)) by (nonlinear_arith)
        requires
            n as real <= pow2(100) as real * p,
            p == pow2(1074) as real,
            pow2(1174) == pow2(100) * pow2(1074),
    {
        assert((pow2(100) * pow2(1074)) as real == pow2(100) as real * p);
    }
    lemma_nearest_finite(n, 1);
    lemma_rounded(n, 1);
    super::arith::lemma_zero_units(0);
    let m = nearest(n, 1);
    let y = n as real / (1 as real * p);
    assert(1nat as real == 1 as real);
    assert(y == size(x)) by (nonlinear_arith)
        requires
            y == n as real / (1 as real * p),
            x * p == t as real,
            p > 0 as real,
            n == (if t < 0 {
                -t
            } else {
                t
            }),
    {
        assert(y * p == n as real);
    }
    let r = a.sum(b);
    let u = units_of(m) as real / p;
    if t > 0 {
        assert(r.mag() == m && !r.negative());
        assert(r.value() == u);
    } else if t < 0 {
        assert(r.mag() == m && r.negative());
        assert(r.value() == -u) by (nonlinear_arith)
            requires
                r.value() == (-(units_of(m) as int)) as real / p,
                u == units_of(m) as real / p,
                p > 0 as real,
        {
            assert((-(units_of(m) as int)) as real == -(units_of(m) as real));
        }
    } else {
        assert(r.mag() == 0);
        assert(r.value() == 0 as real) by (nonlinear_arith)
            requires
                r.value() == 0 as real / p,
                p > 0 as real,
        ;
        assert(grain() * 0 as real == 0 as real);
        lemma_speck();
    }
}

/// 2^256: what is no less than one part of it is far from underflow.
pub open spec fn deep() -> real {
    pow2(256) as real
}

/// Half of the smallest positive number is positive, and next to nothing.
pub proof fn lemma_speck()
    ensures
        speck() > 0 as real,
        speck() * 0x1_0000_0000_0000_0000 as real * 0x1_0000_0000_0000_0000 as real <= 1 as real,
        speck() * deep() <= 1 as real,
{
    lemma_pow2_pos(1074);
    lemma2_to64();
    lemma_pow2_adds(64, 64);
    lemma_pow2_adds(128, 946);
    lemma_pow2_pos(946);
    lemma_pow2_adds(256, 818);
    lemma_pow2_pos(818);
    let p = pow2(1074) as real;
    let t = speck();
    assert(t * (2 as real * p) == 1 as real && t > 0 as real) by (nonlinear_arith)
        requires
            t == 1 as real / (2 as real * p),
            p > 0 as real,
    ;
    assert(pow2(1074) >= pow2(128)) by (nonlinear_arith)
        requires
            pow2(1074) == pow2(128) * pow2(946),
            pow2(946) >= 1,
            pow2(128) >= 0,
    ;
    assert(t * 0x1_0000_0000_0000_0000 as real * 0x1_0000_0000_0000_0000 as real <= 1 as real) by (nonlinear_arith)
        requires
            t * (2 as real * p) == 1 as real,
            t > 0 as real,
            p >= 0x1_0000_0000_0000_0000 as real * 0x1_0000_0000_0000_0000 as real,
    ;
    assert(pow2(1074) >= pow2(256)) by (nonlinear_arith)
        requires
            pow2(1074) == pow2(256) * pow2(818),
            pow2(818) >= 1,
            pow2(256) >= 0,
    ;
    assert(t * deep() <= 1 as real) by (nonlinear_arith)
        requires
            t * (2 as real * p) == 1 as real,
            t > 0 as real,
            p >= deep(),
    ;
}

/// Turning the sign round turns the value round.
pub proof fn lemma_opposite_value(a: Num)
    requires
        a.finite(),
    ensures
        a.opposite().finite(),
        a.opposite().value() == -a.value(),
        a.opposite().negative() == !a.negative(),
{
    lemma_pow2_pos(1074);
    let p = pow2(1074) as real;
    let u = a.signed_units();
    assert(a.opposite().mag() == a.mag());
    assert(a.opposite().signed_units() == -u);
    assert((-u) as real / p == -(u as real / p)) by (nonlinear_arith)
        requires
            p > 0 as real,
    {
        assert((-u) as real == -(u as real));
    }
}

/// A difference is one rounding away from the exact one, and has its sign.
pub proof fn lemma_difference_value(a: Num, b: Num)
    requires
        a.finite(),
        b.finite(),
        size(a.value() - b.value()) <= vast(),
    ensures
        a.difference(b).finite(),
        near(a.difference(b).value(), a.value() - b.value()),
        a.value() - b.value() > 0 as real ==> !a.difference(b).negative(),
        a.value() - b.value() == 0 as real ==> a.difference(b).value() == 0 as real,
        a.value() >= b.value() && (!a.negative() || !b.opposite().negative()) ==> !a.difference(b).negative(),
{
    lemma_opposite_value(b);
    lemma_sum_value(a, b.opposite());
}

/// Small natural numbers are subtracted exactly.
pub proof fn lemma_of_difference(a: nat, b: nat)
    requires
        b < a <= 0x20_0000_0000_0000,
    ensures
        Num::of(a).difference(Num::of(b)) == Num::of((a - b) as nat),
{
    lemma_of_value(a);
    lemma_of_value(b);
    lemma_pow2_pos(1074);
    let p = pow2(1074);
    let t = Num::of(b).opposite();
    assert(t.mag() == Num::of(b).mag());
    assert(a * p - b * p == (a - b) * p && (a - b) * p > 0) by (nonlinear_arith)
        requires
            b < a,
            p > 0,
    ;
}

/// A share of a whole lies between nothing and one.
pub proof fn lemma_share_value(a: Num, b: Num)
    requires
        a.finite(),
        b.finite(),
        b.value() > 0 as real,
        a.value() >= 0 as real,
        a.value() <= b.value(),
    ensures
        a.quotient(b).finite(),
        near(a.quotient(b).value(), a.value() / b.value()),
        a.quotient(b).value() >= 0 as real,
        a.quotient(b).value() <= 1 as real,
        a.value() == 0 as real ==> a.quotient(b).value() == 0 as real,
        a.value() == b.value() ==> a.quotient(b).value() == 1 as real,
{
    lemma_pow2_pos(1074);
    lemma2_to64();
    let p = pow2(1074) as real;
    lemma_sign_of_value(b);
    lemma_value_units(b);
    lemma_speck();
    let (va, vb) = (a.value(), b.value());
    if a.negative() {
        lemma_opposite_value(a);
        lemma_value_units(a.opposite());
        assert(a.mag() == 0);
        super::arith::lemma_zero_units(0);
        super::arith::lemma_zero_units(b.mag());
        assert(0 * pow2(1074) == 0) by (nonlinear_arith);
        super::arith::lemma_nearest_zero(b.units());
        assert(a.quotient(b).mag() == 0);
        assert(0 as real / p == 0 as real && 0 as real / vb == 0 as real) by (nonlinear_arith)
            requires
                p > 0 as real,
                vb > 0 as real,
        ;
        assert(a.quotient(b).value() == 0 as real);
        assert(va == 0 as real);
        assert(0 as real * grain() == 0 as real) by (nonlinear_arith);
        assert(near(0 as real, 0 as real));
    } else {
        lemma_value_units(a);
        lemma_vast();
        assert(va <= vast() * vb) by (nonlinear_arith)
            requires
                va <= vb,
                vb > 0 as real,
                vast() >= 1 as real,
        ;
        lemma_quotient_value(a, b);
        let q = a.quotient(b);
        lemma_value_units(q);
        let (ua, ub) = (a.units(), b.units());
        super::arith::lemma_zero_units(b.mag());
        assert(ua <= ub) by (nonlinear_arith)
            requires
                va <= vb,
                va * p == ua as real,
                vb * p == ub as real,
                p > 0 as real,
        {
            assert(va * p <= vb * p);
        }
        lemma_of_value(1);
        let one = Num::of(1);
        lemma_nearest_exact(one.mag(), ub);
        assert((ua * pow2(1074)) * ub <= (one.units() * ub) * ub) by (nonlinear_arith)
            requires
                ua <= ub,
                one.units() == 1 * pow2(1074),
        ;
        lemma_nearest_monotone(ua * pow2(1074), ub, one.units() * ub, ub);
        assert(q.mag() <= one.mag());
        if q.mag() < one.mag() {
            super::arith::lemma_units_increase(q.mag(), one.mag());
        }
        assert(q.value() <= 1 as real) by (nonlinear_arith)
            requires
                q.value() * p == q.units() as real,
                q.units() <= one.units(),
                one.units() as real == p,
                p > 0 as real,
        ;
        if va == 0 as real {
            assert(0 * pow2(1074) == 0) by (nonlinear_arith);
            super::arith::lemma_zero_units(0);
            super::arith::lemma_nearest_zero(ub);
        }
        if va == vb {
            assert(ua == ub);
            assert(ua * pow2(1074) == one.units() * ub) by (nonlinear_arith)
                requires
                    ua == ub,
                    one.units() == 1 * pow2(1074),
            ;
        }
    }
}

/// A number's sign is that of its value.
pub proof fn lemma_sign_of_value(a: Num)
    requires
        a.finite(),
    ensures
        a.value() > 0 as real ==> !a.negative(),
        a.value() < 0 as real ==> a.negative(),
        a.negative() ==> a.value() <= 0 as real,
        !a.negative() ==> a.value() >= 0 as real,
{
    if a.negative() {
        lemma_opposite_value(a);
        lemma_value_units(a.opposite());
    } else {
        lemma_value_units(a);
    }
}

/// 2^100 leaves room for products of counts.
pub proof fn lemma_vast()
    ensures
        vast() >= 0x1_0000_0000_0000_0000 as real * 0x10_0000_0000 as real,
{
    lemma2_to64();
    lemma2_to64_rest();
    lemma_pow2_adds(64, 36);
}

/// Conversion to an integer drops what is behind the point.
pub proof fn lemma_truncated_value(a: Num)
    requires
        a.finite(),
        !a.negative(),
        a.value() < 0x7fff_ffff_ffff_ffff as real,
    ensures
        a.truncated_signed() as real <= a.value(),
        a.value() < a.truncated_signed() as real + 1 as real,
        a.truncated_signed() >= 0,
        a.truncated(u64::MAX as nat) == a.truncated_signed(),
{
    lemma_value_units(a);
    lemma_pow2_pos(1074);
    let p = pow2(1074);
    let u = a.units();
    let q = u / p;
    vstd::arithmetic::div_mod::lemma_fundamental_div_mod(u as int, p as int);
    let v = a.value();
    assert(q as real <= v && v < q as real + 1 as real) by (nonlinear_arith)
        requires
            v * p as real == u as real,
            u == p * q + u % p,
            0 <= u % p < p,
            p > 0,
    {
        assert((p * q) as real == p as real * q as real);
        assert(u as real >= p as real * q as real);
        assert((p * q + p) as real == p as real * q as real + p as real);
        assert((u as real) < p as real * (q as real + 1 as real));
    }
}

/// Whether a result differs from the exact one by at most `k` parts in 2^53.
pub open spec fn within(r: real, x: real, k: real) -> bool {
    size(r - x) <= x * (k * grain())
}

/// 2^192: one part of it leaves room for rounding.
pub open spec fn slight() -> real {
    pow2(192) as real
}

/// Rounding adds to the error what it moves.
pub proof fn lemma_round_within(r: real, y: real, x: real, k: real)
    requires
        x > 0 as real,
        x * slight() >= 1 as real,
        k >= 0 as real,
        k <= 64 as real,
        within(y, x, k),
        near(r, y),
    ensures
        within(r, x, k + 3 as real),
{
    lemma_speck();
    lemma2_to64();
    lemma_pow2_adds(192, 64);
    let e = grain();
    let t = speck();
    assert(deep() == slight() * 0x1_0000_0000_0000_0000 as real) by (nonlinear_arith)
        requires
            deep() == pow2(256) as real,
            slight() == pow2(192) as real,
            pow2(256) == pow2(192) * 0x1_0000_0000_0000_0000,
    {
        assert((pow2(192) * 0x1_0000_0000_0000_0000) as real == pow2(192) as real * 0x1_0000_0000_0000_0000 as real);
    }
    lemma_pow2_pos(192);
    let l = slight();
    assert(t <= x * e) by (nonlinear_arith)
        requires
            t > 0 as real,
            t * (l * 0x1_0000_0000_0000_0000 as real) <= 1 as real,
            x * l >= 1 as real,
            l > 0 as real,
            e == 1 as real / 0x20_0000_0000_0000 as real,
    {
        assert((t * 0x1_0000_0000_0000_0000 as real) * l <= x * l);
        assert(t * 0x1_0000_0000_0000_0000 as real <= x);
    }
    assert(x * (k * e) <= x * (1 as real / 2 as real)) by (nonlinear_arith)
        requires
            x > 0 as real,
            k <= 64 as real,
            k >= 0 as real,
            e == 1 as real / 0x20_0000_0000_0000 as real,
    {
        assert(k * e <= 1 as real / 2 as real);
    }
    assert(size(y) <= x * 2 as real);
    assert(size(y) * e <= (x * e) * 2 as real) by (nonlinear_arith)
        requires
            size(y) <= x * 2 as real,
            e > 0 as real,
    ;
    assert(x * ((k + 3 as real) * e) == x * (k * e) + (x * e) * 3 as real) by (nonlinear_arith);
}

/// The errors of a quotient's terms add up.
pub proof fn lemma_divide_within(a: real, b: real, x: real, y: real, j: real, k: real)
    requires
        x >= 0 as real,
        y > 0 as real,
        j >= 0 as real,
        j <= 64 as real,
        k >= 0 as real,
        k <= 64 as real,
        within(a, x, j),
        within(b, y, k),
    ensures
        b > 0 as real,
        within(a / b, x / y, j + k + 1 as real),
{
    let e = grain();
    assert(k * e <= 1 as real / 1000 as real && (j + k) * (k * e) * 2 as real <= 1 as real) by (nonlinear_arith)
        requires
            0 as real <= j,
            j <= 64 as real,
            0 as real <= k,
            k <= 64 as real,
            e == 1 as real / 0x20_0000_0000_0000 as real,
    {
        assert(k * e <= 64 as real * e);
        assert((j + k) * (k * e) <= 128 as real * (64 as real * e));
    }
    assert(y * (k * e) <= y * (1 as real / 1000 as real)) by (nonlinear_arith)
        requires
            y > 0 as real,
            k * e <= 1 as real / 1000 as real,
    ;
    assert(b > 0 as real);
    let f = a / b;
    let g = x / y;
    assert(f * b == a && g * y == x && g >= 0 as real) by (nonlinear_arith)
        requires
            f == a / b,
            g == x / y,
            b > 0 as real,
            y > 0 as real,
            x >= 0 as real,
    ;
    // Over the divisor: (f - g) * b == (a - x) - g * (b - y).
    let d = (f - g) * b;
    assert(d == (a - x) - g * (b - y)) by (nonlinear_arith)
        requires
            d == (f - g) * b,
            f * b == a,
            g * y == x,
    ;
    assert(size(g * (b - y)) <= x * (k * e)) by (nonlinear_arith)
        requires
            size(b - y) <= y * (k * e),
            g * y == x,
            g >= 0 as real,
    {
        assert(g * size(b - y) <= g * (y * (k * e)));
    }
    assert(size(d) <= x * ((j + k) * e)) by {
        assert(x * ((j + k) * e) == x * (j * e) + x * (k * e)) by (nonlinear_arith);
    }
    let m = (j + k) * e;
    let n = (j + k + 1 as real) * e;
    assert(size(f - g) <= g * n) by (nonlinear_arith)
        requires
            d == (f - g) * b,
            size(d) <= x * m,
            g * y == x,
            g >= 0 as real,
            y > 0 as real,
            b > 0 as real,
            size(b - y) <= y * (k * e),
            k * e <= 1 as real / 1000 as real,
            k * e >= 0 as real,
            (j + k) * (k * e) * 2 as real <= 1 as real,
            j + k >= 0 as real,
            m == (j + k) * e,
            n == (j + k + 1 as real) * e,
            e > 0 as real,
    {
        // m * y <= n * b, since b is at least y less its error.
        assert(b >= y * (1 as real - k * e));
        assert(n * (1 as real - k * e) >= m) by {
            assert(n == m + e);
            assert(n * (k * e) <= e) by {
                assert(n * (k * e) == e * ((j + k) * (k * e) + k * e));
                assert((j + k) * (k * e) + k * e <= 1 as real);
            }
        }
        assert(n * b >= n * (y * (1 as real - k * e)));
        assert(n * (y * (1 as real - k * e)) >= m * y);
        assert(g * (m * y) <= g * (n * b));
        assert(size(f - g) * b == size(d));
        assert(size(f - g) * b <= (g * n) * b);
    }
}

/// The errors of a product's terms add up.
pub proof fn lemma_multiply_within(a: real, b: real, x: real, y: real, j: real, k: real)
    requires
        x >= 0 as real,
        y >= 0 as real,
        j >= 0 as real,
        j <= 64 as real,
        k >= 0 as real,
        k <= 64 as real,
        within(a, x, j),
        within(b, y, k),
    ensures
        within(a * b, x * y, j + k + 1 as real),
{
    let e = grain();
    let d = a * b - x * y;
    let (p, q) = (a - x, b - y);
    assert(d == p * y + x * q + p * q) by (nonlinear_arith)
        requires
            d == a * b - x * y,
            p == a - x,
            q == b - y,
    ;
    assert((j * e) * (k * e) <= e) by (nonlinear_arith)
        requires
            0 as real <= j,
            j <= 64 as real,
            0 as real <= k,
            k <= 64 as real,
            e == 1 as real / 0x20_0000_0000_0000 as real,
    {
        assert((j * e) * (k * e) == (j * k) * e * e);
        assert(j * k <= 4096 as real);
        assert((j * k) * e <= 1 as real);
    }
    let (sp, sq) = (size(p), size(q));
    assert(sp * y <= (x * y) * (j * e)) by (nonlinear_arith)
        requires
            sp <= x * (j * e),
            y >= 0 as real,
    ;
    assert(x * sq <= (x * y) * (k * e)) by (nonlinear_arith)
        requires
            sq <= y * (k * e),
            x >= 0 as real,
    ;
    assert(sp * sq <= (x * y) * e) by (nonlinear_arith)
        requires
            sp <= x * (j * e),
            sq <= y * (k * e),
            sp >= 0 as real,
            sq >= 0 as real,
            x >= 0 as real,
            y >= 0 as real,
            (j * e) * (k * e) <= e,
    {
        assert(sp * sq <= (x * (j * e)) * sq);
        assert((x * (j * e)) * sq <= (x * (j * e)) * (y * (k * e))) by {
            assert(x * (j * e) >= sp);
            assert(x * (j * e) >= 0 as real);
        }
        assert((x * (j * e)) * (y * (k * e)) == (x * y) * ((j * e) * (k * e)));
        assert(x * y >= 0 as real);
    }
    assert(size(p * y) <= sp * y && size(x * q) <= x * sq && size(p * q) <= sp * sq) by (nonlinear_arith)
        requires
            sp == size(p),
            sq == size(q),
            x >= 0 as real,
            y >= 0 as real,
    ;
    assert((x * y) * ((j + k + 1 as real) * e) == (x * y) * (j * e) + (x * y) * (k * e) + (x * y) * e)
        by (nonlinear_arith);
}

/// How far a quotient of inexact terms is off.
pub proof fn lemma_quotient_within(a: Num, b: Num, x: real, y: real, j: real, k: real)
    requires
        a.finite(),
        b.finite(),
        !a.negative(),
        !b.negative(),
        x > 0 as real,
        y > 0 as real,
        j >= 0 as real,
        j <= 30 as real,
        k >= 0 as real,
        k <= 30 as real,
        within(a.value(), x, j),
        within(b.value(), y, k),
        (x / y) * slight() >= 1 as real,
        x / y <= vast() / 2 as real,
    ensures
        a.quotient(b).finite(),
        !a.quotient(b).negative(),
        within(a.quotient(b).value(), x / y, j + k + 4 as real),
{
    let (va, vb) = (a.value(), b.value());
    lemma_divide_within(va, vb, x, y, j, k);
    let g = x / y;
    lemma_pow2_pos(192);
    assert(g > 0 as real) by (nonlinear_arith)
        requires
            g * slight() >= 1 as real,
            slight() > 0 as real,
    ;
    let n = j + k + 1 as real;
    assert(g * (n * grain()) <= g) by (nonlinear_arith)
        requires
            g > 0 as real,
            n >= 0 as real,
            n <= 64 as real,
            grain() == 1 as real / 0x20_0000_0000_0000 as real,
    {
        assert(n * grain() <= 1 as real);
    }
    let f = va / vb;
    assert(f <= vast());
    assert(va <= vast() * vb) by (nonlinear_arith)
        requires
            f == va / vb,
            f <= vast(),
            vb > 0 as real,
    {
        assert(f * vb == va);
    }
    lemma_quotient_value(a, b);
    lemma_round_within(a.quotient(b).value(), f, g, n);
}

/// How far a product of inexact terms is off.
pub proof fn lemma_product_within(a: Num, b: Num, x: real, y: real, j: real, k: real)
    requires
        a.finite(),
        b.finite(),
        !a.negative(),
        !b.negative(),
        x > 0 as real,
        y > 0 as real,
        j >= 0 as real,
        j <= 30 as real,
        k >= 0 as real,
        k <= 30 as real,
        within(a.value(), x, j),
        within(b.value(), y, k),
        (x * y) * slight() >= 1 as real,
        x * y <= vast() / 2 as real,
    ensures
        a.product(b).finite(),
        !a.product(b).negative(),
        within(a.product(b).value(), x * y, j + k + 4 as real),
{
    let (va, vb) = (a.value(), b.value());
    lemma_multiply_within(va, vb, x, y, j, k);
    let g = x * y;
    lemma_pow2_pos(192);
    assert(g > 0 as real) by (nonlinear_arith)
        requires
            g * slight() >= 1 as real,
            slight() > 0 as real,
    ;
    let n = j + k + 1 as real;
    assert(g * (n * grain()) <= g) by (nonlinear_arith)
        requires
            g > 0 as real,
            n >= 0 as real,
            n <= 64 as real,
            grain() == 1 as real / 0x20_0000_0000_0000 as real,
    {
        assert(n * grain() <= 1 as real);
    }
    assert(va * vb <= vast());
    lemma_product_value(a, b);
    lemma_round_within(a.product(b).value(), va * vb, g, n);
}

/// A natural number is held to two parts in 2^53.
pub proof fn lemma_of_within(n: nat)
    requires
        1 <= n <= u64::MAX,
    ensures
        Num::of(n).finite(),
        !Num::of(n).negative(),
        within(Num::of(n).value(), n as real, 3 as real),
        n <= 0x20_0000_0000_0000 ==> within(Num::of(n).value(), n as real, 0 as real),
{
    lemma_of_value(n);
    lemma_pow2_pos(192);
    let x = n as real;
    assert(x * slight() >= 1 as real) by (nonlinear_arith)
        requires
            x >= 1 as real,
            slight() >= 1 as real,
    ;
    assert(x * (0 as real * grain()) == 0 as real) by (nonlinear_arith);
    lemma_round_within(Num::of(n).value(), x, x, 0 as real);
}

/// Nothing divided or multiplied is nothing.
pub proof fn lemma_zero_stays(b: Num)
    requires
        b.finite(),
        !b.negative(),
    ensures
        Num::of(0) == Num::spec_zero(),
        Num::spec_zero().product(b) == Num::spec_zero(),
        b.mag() > 0 ==> Num::spec_zero().quotient(b) == Num::spec_zero(),
{
    lemma_pow2_pos(1074);
    lemma2_to64();
    super::arith::lemma_zero_units(0);
    super::arith::lemma_zero_units(b.mag());
    assert(0 * pow2(1074) == 0 && 0 * b.units() == 0) by (nonlinear_arith);
    super::arith::lemma_nearest_zero(1);
    super::arith::lemma_nearest_zero(pow2(1074));
    if b.mag() > 0 {
        super::arith::lemma_nearest_zero(b.units());
    }
}

/// Whether a result differs from the exact one by at most `k` parts in 2^53 of
/// something greater.
pub open spec fn off_by(r: real, x: real, all: real, k: real) -> bool {
    size(r - x) <= all * (k * grain())
}

/// Rounding adds to the error what it moves.
pub proof fn lemma_round_off(r: real, y: real, x: real, all: real, k: real)
    requires
        x >= 0 as real,
        x <= all,
        all > 0 as real,
        all * slight() >= 1 as real,
        k >= 0 as real,
        k <= 64 as real,
        off_by(y, x, all, k),
        near(r, y),
    ensures
        off_by(r, x, all, k + 3 as real),
{
    let e = grain();
    lemma_all_scale(all);
    assert(all * (k * e) <= all) by (nonlinear_arith)
        requires
            all > 0 as real,
            k <= 64 as real,
            k >= 0 as real,
            e == 1 as real / 0x20_0000_0000_0000 as real,
    {
        assert(k * e <= 1 as real);
    }
    assert(size(y) <= all * 2 as real);
    assert(size(y) * e <= (all * e) * 2 as real) by (nonlinear_arith)
        requires
            size(y) <= all * 2 as real,
            e > 0 as real,
    ;
    assert(all * ((k + 3 as real) * e) == all * (k * e) + (all * e) * 3 as real) by (nonlinear_arith);
}

/// Half of the smallest number is less than one part in 2^53 of anything that
/// is not next to nothing.
proof fn lemma_all_scale(all: real)
    requires
        all * slight() >= 1 as real,
        all > 0 as real,
    ensures
        speck() <= all * grain(),
{
    lemma_speck();
    lemma2_to64();
    lemma_pow2_adds(192, 64);
    lemma_pow2_pos(192);
    let t = speck();
    let l = slight();
    let e = grain();
    assert(deep() == l * 0x1_0000_0000_0000_0000 as real) by (nonlinear_arith)
        requires
            deep() == pow2(256) as real,
            l == pow2(192) as real,
            pow2(256) == pow2(192) * 0x1_0000_0000_0000_0000,
    {
        assert((pow2(192) * 0x1_0000_0000_0000_0000) as real == pow2(192) as real * 0x1_0000_0000_0000_0000 as real);
    }
    assert(t <= all * e) by (nonlinear_arith)
        requires
            t > 0 as real,
            t * (l * 0x1_0000_0000_0000_0000 as real) <= 1 as real,
            all * l >= 1 as real,
            l > 0 as real,
            e == 1 as real / 0x20_0000_0000_0000 as real,
    {
        assert((t * 0x1_0000_0000_0000_0000 as real) * l <= all * l);
        assert(t * 0x1_0000_0000_0000_0000 as real <= all);
    }
}

/// The errors of a quotient's terms add up.
pub proof fn lemma_divide_off(a: real, b: real, x: real, all: real, y: real, j: real, k: real)
    requires
        x >= 0 as real,
        x <= all,
        y > 0 as real,
        j >= 0 as real,
        j <= 64 as real,
        k >= 0 as real,
        k <= 64 as real,
        off_by(a, x, all, j),
        within(b, y, k),
    ensures
        b > 0 as real,
        off_by(a / b, x / y, all / y, j + k + 1 as real),
{
    let e = grain();
    lemma_divide_within(all, b, all, y, 0 as real, k);
    assert(within(all, all, 0 as real)) by {
        assert(all * (0 as real * e) == 0 as real) by (nonlinear_arith);
    }
    let f = a / b;
    let g = x / y;
    let c = all / y;
    let h = all / b;
    assert(f * b == a && g * y == x && c * y == all && h * b == all && g >= 0 as real && g <= c) by (nonlinear_arith)
        requires
            f == a / b,
            g == x / y,
            c == all / y,
            h == all / b,
            b > 0 as real,
            y > 0 as real,
            x >= 0 as real,
            x <= all,
    {
        assert(g * y <= c * y);
    }
    let d = (f - g) * b;
    assert(d == (a - x) - g * (b - y)) by (nonlinear_arith)
        requires
            d == (f - g) * b,
            f * b == a,
            g * y == x,
    ;
    assert(size(g * (b - y)) <= all * (k * e)) by (nonlinear_arith)
        requires
            size(b - y) <= y * (k * e),
            c * y == all,
            g >= 0 as real,
            g <= c,
            k * e >= 0 as real,
            y > 0 as real,
    {
        assert(g * size(b - y) <= g * (y * (k * e)));
        assert(y * (k * e) >= 0 as real);
        assert(g * (y * (k * e)) <= c * (y * (k * e)));
    }
    let m = (j + k) * e;
    assert(size(d) <= all * m) by {
        assert(all * ((j + k) * e) == all * (j * e) + all * (k * e)) by (nonlinear_arith);
    }
    // Over b: the error is at most h * m, and h is within k + 1 parts of c.
    assert(size(f - g) <= h * m) by (nonlinear_arith)
        requires
            d == (f - g) * b,
            size(d) <= all * m,
            h * b == all,
            b > 0 as real,
    {
        assert(size(f - g) * b == size(d));
        assert(size(f - g) * b <= (h * m) * b);
    }
    let n = (j + k + 1 as real) * e;
    assert(h * m <= c * n) by (nonlinear_arith)
        requires
            size(h - c) <= c * ((0 as real + k + 1 as real) * e),
            m == (j + k) * e,
            n == (j + k + 1 as real) * e,
            j >= 0 as real,
            j <= 64 as real,
            k >= 0 as real,
            k <= 64 as real,
            c >= 0 as real,
            e == 1 as real / 0x20_0000_0000_0000 as real,
    {
        let z = (k + 1 as real) * e;
        assert(h <= c + c * z);
        assert(m >= 0 as real && m <= 128 as real * e);
        assert(h * m <= (c + c * z) * m);
        assert(z <= 65 as real * e && z >= 0 as real);
        assert(z * m <= 65 as real * e * (128 as real * e));
        assert(z * m <= e);
        assert((c + c * z) * m == c * (m + z * m));
        assert(m + z * m <= n);
    }
}

/// Small natural numbers are added and subtracted exactly.
pub proof fn lemma_of_arith(a: nat, b: nat)
    requires
        a + b <= 0x20_0000_0000_0000,
    ensures
        Num::of(a).sum(Num::of(b)) == Num::of(a + b),
        Num::of(a + b).difference(Num::of(b)) == Num::of(a),
{
    lemma_of_value(a);
    lemma_of_value(b);
    lemma_of_value(a + b);
    lemma_pow2_pos(1074);
    lemma_zero_stays(Num::of(b));
    super::arith::lemma_zero_units(0);
    let p = pow2(1074);
    assert(a * p + b * p == (a + b) * p) by (nonlinear_arith);
    assert(a * p >= 0 && b * p >= 0) by (nonlinear_arith)
        requires
            p > 0,
    ;
    if a > 0 {
        lemma_of_difference(a + b, b);
        assert(a * p > 0) by (nonlinear_arith)
            requires
                a > 0,
                p > 0,
        ;
    }
    assert(a == 0 ==> a * p == 0) by (nonlinear_arith);
    assert(b == 0 ==> b * p == 0) by (nonlinear_arith);
    let t = Num::of(b).opposite();
    assert(t.mag() == Num::of(b).mag());
}

/// Numbers order as their values do.
pub proof fn lemma_order_value(a: Num, b: Num)
    requires
        a.finite(),
        b.finite(),
    ensures
        a.less(b) == (a.value() < b.value()),
{
    super::arith::lemma_less_is_value_order(a, b);
    lemma_pow2_pos(1074);
    let p = pow2(1074) as real;
    let (x, y) = (a.signed_units() as real, b.signed_units() as real);
    assert((x / p < y / p) == (x < y)) by (nonlinear_arith)
        requires
            p > 0 as real,
    {
        assert((x / p) * p == x);
        assert((y / p) * p == y);
    }
}

/// A share of `n` parts: a value out of `max` makes `v / max * n` of them, up to
/// what rounding moves; nothing makes none, and the whole makes all.
pub proof fn lemma_part_value(v: Num, max: Num, n: nat)
    requires
        v.finite(),
        max.finite(),
        !v.negative(),
        max.value() > 0 as real,
        v.value() <= max.value(),
        1 <= n <= 0x1000_0000_0000,
    ensures
        v.quotient(max).product(Num::of(n)).finite(),
        !v.quotient(max).product(Num::of(n)).negative(),
        size(v.quotient(max).product(Num::of(n)).value() - v.value() / max.value() * n as real) <= n as real * (8 as real
            * grain()),
        v.value() == 0 as real ==> v.quotient(max).product(Num::of(n)).value() == 0 as real,
        v.value() == max.value() ==> v.quotient(max).product(Num::of(n)).value() == n as real,
{
    lemma_sign_of_value(max);
    lemma_sign_of_value(v);
    lemma_vast();
    lemma_speck();
    assert(v.value() <= vast() * max.value()) by (nonlinear_arith)
        requires
            v.value() <= max.value(),
            max.value() > 0 as real,
            vast() >= 1 as real,
    ;
    lemma_quotient_value(v, max);
    lemma_share_value(v, max);
    lemma_of_value(n);
    lemma_of_value(1);
    let q = v.quotient(max);
    let m = Num::of(n);
    let nr = n as real;
    assert(q.value() * m.value() <= vast() && q.value() * m.value() >= 0 as real && q.value() * m.value() <= nr)
        by (nonlinear_arith)
        requires
            q.value() >= 0 as real,
            q.value() <= 1 as real,
            m.value() == nr,
            nr >= 1 as real,
            nr <= 0x1000_0000_0000 as real,
            vast() >= 0x1000_0000_0000 as real,
    ;
    lemma_product_value(q, m);
    let z = q.product(m);
    let x = v.value() / max.value();
    assert(x >= 0 as real && x <= 1 as real) by (nonlinear_arith)
        requires
            x == v.value() / max.value(),
            v.value() >= 0 as real,
            v.value() <= max.value(),
            max.value() > 0 as real,
    ;
    let e = grain();
    let t = speck();
    assert(t <= e) by (nonlinear_arith)
        requires
            t > 0 as real,
            t * 0x1_0000_0000_0000_0000 as real * 0x1_0000_0000_0000_0000 as real <= 1 as real,
            e == 1 as real / 0x20_0000_0000_0000 as real,
    ;
    assert(size(x) * e <= e) by (nonlinear_arith)
        requires
            size(x) <= 1 as real,
            e > 0 as real,
    ;
    let d = q.value() - x;
    assert(size(d) <= 2 as real * e);
    assert(q.value() * nr - x * nr == d * nr) by (nonlinear_arith)
        requires
            d == q.value() - x,
    ;
    assert(size(d * nr) <= 2 as real * (nr * e)) by (nonlinear_arith)
        requires
            size(d) <= 2 as real * e,
            nr >= 1 as real,
    ;
    assert(size(q.value() * nr) * e <= nr * e) by (nonlinear_arith)
        requires
            q.value() * nr >= 0 as real,
            q.value() * nr <= nr,
            e > 0 as real,
    ;
    assert(t <= nr * e) by (nonlinear_arith)
        requires
            t <= e,
            nr >= 1 as real,
            e > 0 as real,
    ;
    assert(nr * (8 as real * e) == 8 as real * (nr * e)) by (nonlinear_arith);
    assert(nr * e >= 0 as real) by (nonlinear_arith)
        requires
            nr >= 1 as real,
            e > 0 as real,
    ;
    lemma_part_ends(q, n);
}

proof fn lemma_part_ends(q: Num, n: nat)
    requires
        q.finite(),
        !q.negative(),
        1 <= n <= 0x20_0000_0000_0000,
    ensures
        q.value() == 0 as real ==> q.product(Num::of(n)).value() == 0 as real,
        q.value() == 1 as real ==> q.product(Num::of(n)).value() == n as real,
{
    let m = Num::of(n);
    let p = pow2(1074);
    lemma_pow2_pos(1074);
    lemma_of_value(n);
    lemma_of_value(1);
    lemma_value_units(q);
    lemma_value_units(m);
    let z = q.product(m);
    if q.value() == 0 as real {
        super::arith::lemma_zero_units(0);
        super::arith::lemma_nearest_zero(p);
        assert(0 * m.units() == 0) by (nonlinear_arith);
        assert(z.mag() == 0);
        lemma_value_units(z);
    }
    if q.value() == 1 as real {
        assert(q.units() as real == p as real) by (nonlinear_arith)
            requires
                q.value() * p as real == q.units() as real,
                q.value() == 1 as real,
        ;
        assert(q.units() == p);
        assert(q.units() * m.units() == m.units() * p) by (nonlinear_arith)
            requires
                q.units() == p,
        ;
        lemma_nearest_exact(m.mag(), p);
        assert(z.mag() == m.mag());
        assert(z == m);
    }
}

} // verus!
