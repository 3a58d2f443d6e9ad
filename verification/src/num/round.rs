//! Rounding a ratio of integers to the nearest magnitude.

use super::{BINADE, INFINITE};
use vstd::arithmetic::power2::{lemma_pow2_adds, lemma_pow2_pos, lemma_pow2_unfold, lemma2_to64, lemma2_to64_rest, pow2};
use vstd::prelude::*;

verus! {

/// `n / d` rounded to an integer, ties to even.
pub open spec fn half_even(n: nat, d: nat) -> nat {
    let q = n / d;
    let r = n % d;
    if 2 * r > d || (2 * r == d && q % 2 == 1) {
        q + 1
    } else {
        q
    }
}

/// The magnitude that lies `n / d` steps of size 2^`k` above zero: the first
/// binade whose significands reach the value, rounded there to an integer.
pub open spec fn steps(n: nat, d: nat, k: nat) -> nat
    decreases n - d,
{
    if n < d * 0x20_0000_0000_0000 || d == 0 {
        k * BINADE as nat + half_even(n, d)
    } else {
        steps(n, 2 * d, k + 1)
    }
}

/// The magnitude nearest to `n / d` multiples of 2^-1074, ties to even;
/// infinity past the largest finite one.
pub open spec fn nearest(n: nat, d: nat) -> nat {
    let m = steps(n, d, 0);
    if m > INFINITE {
        INFINITE as nat
    } else {
        m
    }
}

/// The magnitude nearest to `n * 2^t / d` multiples of 2^-1074.
pub open spec fn nearest_scaled(n: nat, d: nat, t: int) -> nat {
    if t >= 0 {
        nearest(n * pow2(t as nat), d)
    } else {
        nearest(n, d * pow2((-t) as nat))
    }
}

pub(crate) proof fn lemma_steps_closed(n: nat, d: nat, i: nat, k: nat)
    requires
        d > 0,
        k == 0 || n >= d * pow2(52 + k),
        n < d * pow2(53 + k),
    ensures
        steps(n, d, i) == (i + k) * BINADE as nat + half_even(n, d * pow2(k)),
    decreases k,
{
    lemma2_to64_rest();
    lemma2_to64();
    if k == 0 {
        assert(pow2(53) == 0x20_0000_0000_0000);
        assert(d * pow2(0) == d) by (nonlinear_arith)
            requires
                pow2(0) == 1,
        ;
    } else {
        let k1 = (k - 1) as nat;
        lemma_pow2_unfold(52 + k);
        lemma_pow2_unfold(53 + k);
        lemma_pow2_unfold(k);
        assert(d * pow2(52 + k) == (2 * d) * pow2(52 + k1)) by (nonlinear_arith)
            requires
                pow2(52 + k) == 2 * pow2(52 + k1),
        ;
        assert(d * pow2(53 + k) == (2 * d) * pow2(53 + k1)) by (nonlinear_arith)
            requires
                pow2(53 + k) == 2 * pow2(53 + k1),
        ;
        assert(d * pow2(k) == (2 * d) * pow2(k1)) by (nonlinear_arith)
            requires
                pow2(k) == 2 * pow2(k1),
        ;
        lemma_pow2_adds(53, k1);
        lemma_pow2_pos(k1);
        assert(n >= d * 0x20_0000_0000_0000) by (nonlinear_arith)
            requires
                n >= d * pow2(52 + k),
                pow2(52 + k) == 0x20_0000_0000_0000 * pow2(k1),
                pow2(k1) >= 1,
        ;
        lemma_steps_closed(n, 2 * d, i + 1, k1);
        assert((i + 1 + k1) * (BINADE as nat) == (i + k) * (BINADE as nat));
    }
}

pub(crate) proof fn lemma_half_even_scale(n: nat, d: nat, c: nat)
    requires
        d > 0,
        c > 0,
    ensures
        half_even(c * n, c * d) == half_even(n, d),
{
    let q = n / d;
    let r = n % d;
    assert(n == d * q + r && 0 <= r < d) by (nonlinear_arith)
        requires
            d > 0,
            q == n / d,
            r == n % d,
    ;
    assert(c * n == (c * d) * q + c * r) by (nonlinear_arith)
        requires
            n == d * q + r,
    ;
    assert(0 <= c * r < c * d) by (nonlinear_arith)
        requires
            0 <= r < d,
            c > 0,
    ;
    vstd::arithmetic::div_mod::lemma_fundamental_div_mod_converse(
        (c * n) as int,
        (c * d) as int,
        q as int,
        (c * r) as int,
    );
    assert((2 * r > d) == (2 * (c * r) > c * d)) by (nonlinear_arith)
        requires
            c > 0,
    ;
    assert((2 * r == d) == (2 * (c * r) == c * d)) by (nonlinear_arith)
        requires
            c > 0,
    ;
}

pub(crate) proof fn lemma_steps_scale(n: nat, d: nat, c: nat, k: nat)
    requires
        d > 0,
        c > 0,
    ensures
        steps(c * n, c * d, k) == steps(n, d, k),
    decreases n - d,
{
    assert((n < d * 0x20_0000_0000_0000) == (c * n < (c * d) * 0x20_0000_0000_0000)) by (nonlinear_arith)
        requires
            c > 0,
    ;
    assert(c * d > 0) by (nonlinear_arith)
        requires
            c > 0,
            d > 0,
    ;
    if n < d * 0x20_0000_0000_0000 {
        lemma_half_even_scale(n, d, c);
    } else {
        lemma_steps_scale(n, 2 * d, c, k + 1);
        assert(c * (2 * d) == 2 * (c * d)) by (nonlinear_arith);
    }
}

/// A common factor of numerator and denominator does not change the result.
pub(crate) proof fn lemma_nearest_scale(n: nat, d: nat, c: nat)
    requires
        d > 0,
        c > 0,
    ensures
        nearest(c * n, c * d) == nearest(n, d),
{
    lemma_steps_scale(n, d, c, 0);
}


proof fn lemma_shift_order(n: nat, d: nat, x: nat, y: nat, c: nat)
    ensures
        (n * pow2(x) < d * pow2(y)) == (n * pow2(x + c) < d * pow2(y + c)),
{
    lemma_pow2_adds(x, c);
    lemma_pow2_adds(y, c);
    lemma_pow2_pos(c);
    let a = n * pow2(x);
    let b = d * pow2(y);
    assert(n * pow2(x + c) == a * pow2(c)) by (nonlinear_arith)
        requires
            a == n * pow2(x),
            pow2(x + c) == pow2(x) * pow2(c),
    ;
    assert(d * pow2(y + c) == b * pow2(c)) by (nonlinear_arith)
        requires
            b == d * pow2(y),
            pow2(y + c) == pow2(y) * pow2(c),
    ;
    assert((a < b) == (a * pow2(c) < b * pow2(c))) by (nonlinear_arith)
        requires
            pow2(c) > 0,
    ;
}

/// `n * 2^x < d * 2^y`, for exponents of either sign.
pub(crate) open spec fn below(n: nat, d: nat, x: int, y: int) -> bool {
    n * pow2((x + 10000) as nat) < d * pow2((y + 10000) as nat)
}

pub(crate) proof fn lemma_below_shift(n: nat, d: nat, x: int, y: int, c: int)
    requires
        -10000 <= x,
        -10000 <= y,
        -10000 <= x + c,
        -10000 <= y + c,
    ensures
        below(n, d, x, y) == below(n, d, x + c, y + c),
{
    if c >= 0 {
        lemma_shift_order(n, d, (x + 10000) as nat, (y + 10000) as nat, c as nat);
    } else {
        lemma_shift_order(n, d, (x + c + 10000) as nat, (y + c + 10000) as nat, (-c) as nat);
    }
}

pub(crate) proof fn lemma_below_wider(n: nat, d: nat, x: int, y: int, z: int)
    requires
        -10000 <= y <= z,
    ensures
        below(n, d, x, y) ==> below(n, d, x, z),
        !below(n, d, x, z) ==> !below(n, d, x, y),
{
    if y < z {
        vstd::arithmetic::power2::lemma_pow2_strictly_increases((y + 10000) as nat, (z + 10000) as nat);
    }
    assert(d * pow2((y + 10000) as nat) <= d * pow2((z + 10000) as nat)) by (nonlinear_arith)
        requires
            pow2((y + 10000) as nat) <= pow2((z + 10000) as nat),
    ;
}

proof fn lemma_below_plain(n: nat, d: nat, x: nat, y: nat)
    ensures
        below(n, d, x as int, y as int) == (n * pow2(x) < d * pow2(y)),
{
    lemma_shift_order(n, d, x, y, 10000);
}

proof fn lemma_scaled_base(n: nat, d: nat, t: int)
    requires
        d > 0,
        -10000 <= t,
    ensures
        nearest_scaled(n, d, t) == nearest(n * pow2((t + 10000) as nat), d * pow2(10000)),
{
    if t >= 0 {
        let c = pow2(10000);
        lemma_pow2_pos(10000);
        lemma_pow2_adds(t as nat, 10000);
        lemma_nearest_scale(n * pow2(t as nat), d, c);
        assert(c * (n * pow2(t as nat)) == n * pow2((t + 10000) as nat)) by (nonlinear_arith)
            requires
                pow2((t + 10000) as nat) == pow2(t as nat) * c,
        ;
        assert(c * d == d * c) by (nonlinear_arith);
    } else {
        let c = pow2((t + 10000) as nat);
        let e = pow2((-t) as nat);
        lemma_pow2_pos((t + 10000) as nat);
        lemma_pow2_pos((-t) as nat);
        lemma_pow2_adds((-t) as nat, (t + 10000) as nat);
        assert(d * e > 0) by (nonlinear_arith)
            requires
                d > 0,
                e > 0,
        ;
        lemma_nearest_scale(n, d * e, c);
        assert(c * n == n * c) by (nonlinear_arith);
        assert(c * (d * e) == d * pow2(10000)) by (nonlinear_arith)
            requires
                pow2(10000) == e * c,
        ;
    }
}

/// How a ratio in the binade below 2^`b` rounds once scaled by 2^`t`.
pub(crate) proof fn lemma_scaled_closed(n: nat, d: nat, b: int, t: int, k: nat)
    requires
        d > 0,
        -3000 <= b <= 3000,
        -4000 <= t <= 4000,
        below(n, d, 0, b),
        !below(n, d, 0, b - 1),
        k == if b + t - 53 > 0 {
            b + t - 53
        } else {
            0
        },
    ensures
        t >= k ==> nearest_scaled(n, d, t) == capped(k * BINADE as nat + half_even(n * pow2((t - k) as nat), d)),
        t < k ==> nearest_scaled(n, d, t) == capped(k * BINADE as nat + half_even(n, d * pow2((k - t) as nat))),
{
    let nn = n * pow2((t + 10000) as nat);
    let dd = d * pow2(10000);
    lemma_scaled_base(n, d, t);
    lemma_pow2_pos(10000);
    assert(dd > 0) by (nonlinear_arith)
        requires
            dd == d * pow2(10000),
            d > 0,
            pow2(10000) > 0,
    ;
    lemma_below_shift(n, d, 0, b, t);
    lemma_below_shift(n, d, 0, b - 1, t);
    lemma_below_wider(n, d, t, b + t, (53 + k) as int);
    lemma_pow2_adds(10000, 53 + k);
    lemma_pow2_adds(10000, 52 + k);
    lemma_pow2_adds(10000, k);
    assert(dd * pow2(53 + k) == d * pow2(10000 + (53 + k))) by (nonlinear_arith)
        requires
            dd == d * pow2(10000),
            pow2(10000 + (53 + k)) == pow2(10000) * pow2(53 + k),
    ;
    assert(dd * pow2(52 + k) == d * pow2(10000 + (52 + k))) by (nonlinear_arith)
        requires
            dd == d * pow2(10000),
            pow2(10000 + (52 + k)) == pow2(10000) * pow2(52 + k),
    ;
    assert((53 + k + 10000) as nat == 10000 + (53 + k));
    if k > 0 {
        assert(b - 1 + t == 52 + k);
        assert(!below(n, d, t, 52 + k as int));
    }
    lemma_steps_closed(nn, dd, 0, k);
    let dk = dd * pow2(k);
    assert(dk == d * pow2(10000 + k)) by (nonlinear_arith)
        requires
            dk == (d * pow2(10000)) * pow2(k),
            pow2(10000 + k) == pow2(10000) * pow2(k),
    ;
    if t >= k {
        let j = (t - k) as nat;
        let c = pow2(10000 + k);
        lemma_pow2_adds(j, 10000 + k);
        lemma_pow2_pos(10000 + k);
        assert(j + (10000 + k) == t + 10000);
        lemma_half_even_scale(n * pow2(j), d, c);
        assert(c * (n * pow2(j)) == nn) by (nonlinear_arith)
            requires
                nn == n * pow2((t + 10000) as nat),
                pow2((t + 10000) as nat) == pow2(j) * c,
        ;
        assert(c * d == dk) by (nonlinear_arith)
            requires
                dk == d * c,
        ;
    } else {
        let s = (k - t) as nat;
        let c = pow2((t + 10000) as nat);
        lemma_pow2_adds(s, (t + 10000) as nat);
        lemma_pow2_pos((t + 10000) as nat);
        lemma_pow2_pos(s);
        assert(s + (t + 10000) as nat == 10000 + k);
        assert(d * pow2(s) > 0) by (nonlinear_arith)
            requires
                d > 0,
                pow2(s) > 0,
        ;
        lemma_half_even_scale(n, d * pow2(s), c);
        assert(c * n == nn) by (nonlinear_arith)
            requires
                nn == n * c,
        ;
        assert(c * (d * pow2(s)) == dk) by (nonlinear_arith)
            requires
                dk == d * pow2(10000 + k),
                pow2(10000 + k) == pow2(s) * c,
        ;
    }
}

pub open spec fn capped(m: nat) -> nat {
    if m > INFINITE {
        INFINITE as nat
    } else {
        m
    }
}

/// 2 to the power `e`.
pub(crate) fn power(e: u32) -> (r: u128)
    requires
        e <= 126,
    ensures
        r == pow2(e as nat),
        0 < r <= 0x4000_0000_0000_0000_0000_0000_0000_0000,
{
    let mut r: u128 = 1;
    let mut i: u32 = 0;
    proof {
        lemma2_to64();
        lemma_pow126();
    }
    while i < e
        invariant
            i <= e <= 126,
            r == pow2(i as nat),
            pow2(126) == 0x4000_0000_0000_0000_0000_0000_0000_0000,
        decreases e - i,
    {
        proof {
            lemma_pow2_unfold((i + 1) as nat);
            vstd::arithmetic::power2::lemma_pow2_strictly_increases(i as nat, 126);
        }
        r = r * 2;
        i = i + 1;
    }
    proof {
        lemma_pow2_pos(e as nat);
        if e < 126 {
            vstd::arithmetic::power2::lemma_pow2_strictly_increases(e as nat, 126);
        }
    }
    r
}

pub(crate) proof fn lemma_pow126()
    ensures
        pow2(126) == 0x4000_0000_0000_0000_0000_0000_0000_0000,
        pow2(118) == 0x40_0000_0000_0000_0000_0000_0000_0000,
        pow2(107) == 0x800_0000_0000_0000_0000_0000_0000,
        pow2(54) == 0x40_0000_0000_0000,
        pow2(53) == 0x20_0000_0000_0000,
        pow2(52) == 0x10_0000_0000_0000,
        pow2(64) == 0x1_0000_0000_0000_0000,
{
    lemma2_to64();
    lemma2_to64_rest();
    lemma_pow2_adds(63, 63);
    lemma_pow2_adds(64, 54);
    lemma_pow2_adds(54, 53);
}

/// The number of binary digits of `n`.
pub(crate) fn bit_length(n: u128) -> (r: u32)
    requires
        n < 0x40_0000_0000_0000_0000_0000_0000_0000,
    ensures
        r <= 118,
        n < pow2(r as nat),
        r > 0 ==> n >= pow2((r - 1) as nat),
{
    let mut p: u128 = 1;
    let mut r: u32 = 0;
    proof {
        lemma2_to64();
        lemma_pow126();
    }
    while p <= n
        invariant
            n < 0x40_0000_0000_0000_0000_0000_0000_0000,
            p == pow2(r as nat),
            r <= 118,
            r > 0 ==> n >= pow2((r - 1) as nat),
            pow2(118) == 0x40_0000_0000_0000_0000_0000_0000_0000,
        decreases 118 - r,
    {
        proof {
            lemma_pow2_unfold((r + 1) as nat);
            if r >= 118 {
                assert(false);
            }
        }
        p = p * 2;
        r = r + 1;
    }
    r
}

/// `n / d` rounded to an integer, ties to even.
pub(crate) fn div_half_even(n: u128, d: u128) -> (r: u128)
    requires
        0 < d <= 0x4000_0000_0000_0000_0000_0000_0000_0000,
        n < 0x8000_0000_0000_0000_0000_0000_0000_0000,
    ensures
        r == half_even(n as nat, d as nat),
{
    let q: u128 = n / d;
    let m: u128 = n % d;
    if 2 * m > d || (2 * m == d && q % 2 == 1) {
        q + 1
    } else {
        q
    }
}

proof fn lemma_half_even_tiny(n: nat, d: nat)
    requires
        2 * n < d,
    ensures
        half_even(n, d) == 0,
{
    vstd::arithmetic::div_mod::lemma_fundamental_div_mod_converse(n as int, d as int, 0, n as int);
}

/// The magnitude nearest to `n * 2^t / d` multiples of 2^-1074, given the
/// binade of `n / d`.
pub(crate) fn round_scaled(n: u128, d: u128, b: i32, t: i32) -> (r: u64)
    requires
        0 < d < 0x40_0000_0000_0000,
        n < 0x40_0000_0000_0000_0000_0000_0000_0000,
        d > 1 ==> n < 0x40_0000_0000_0000,
        -200 <= b <= 200,
        -4000 <= t <= 4000,
        below(n as nat, d as nat, 0, b as int),
        !below(n as nat, d as nat, 0, b - 1),
    ensures
        r == nearest_scaled(n as nat, d as nat, t as int),
        r <= INFINITE,
{
    let k: i32 = if b + t - 53 > 0 {
        b + t - 53
    } else {
        0
    };
    proof {
        lemma_scaled_closed(n as nat, d as nat, b as int, t as int, k as nat);
    }
    if k >= 2047 {
        return INFINITE;
    }
    let m: u128;
    if t >= k {
        let j: u32 = (t - k) as u32;
        proof {
            lemma_fits(n as nat, d as nat, b as int, t as int, k as nat);
            lemma_pow126();
        }
        if n == 0 {
            m = 0;
            proof {
                assert(0 * pow2(j as nat) == 0) by (nonlinear_arith);
                lemma_half_even_tiny(0, d as nat);
            }
        } else {
            proof {
                lemma_small_shift(n as nat, d as nat, j as nat);
                if j > 126 {
                    vstd::arithmetic::power2::lemma_pow2_strictly_increases(126, j as nat);
                }
            }
            let p: u128 = power(j);
            m = div_half_even(n * p, d);
        }
    } else {
        let s: u32 = (k - t) as u32;
        proof {
            lemma_pow126();
        }
        if s >= 120 || (d > 1 && s >= 56) {
            m = 0;
            proof {
                if d > 1 {
                    lemma2_to64_rest();
                    if s > 56 {
                        vstd::arithmetic::power2::lemma_pow2_strictly_increases(56, s as nat);
                    }
                } else {
                    lemma_pow2_adds(118, 2);
                    if s > 120 {
                        vstd::arithmetic::power2::lemma_pow2_strictly_increases(120, s as nat);
                    }
                    lemma2_to64();
                }
                assert(d * pow2(s as nat) >= pow2(s as nat)) by (nonlinear_arith)
                    requires
                        d >= 1,
                ;
                lemma_half_even_tiny(n as nat, d as nat * pow2(s as nat));
            }
        } else {
            let p: u128 = power(s);
            proof {
                if d > 1 {
                    if s < 55 {
                        vstd::arithmetic::power2::lemma_pow2_strictly_increases(s as nat, 55);
                    }
                    lemma2_to64_rest();
                    assert(d * p <= 0x40_0000_0000_0000 * 0x80_0000_0000_0000) by (nonlinear_arith)
                        requires
                            d <= 0x40_0000_0000_0000,
                            p <= 0x80_0000_0000_0000,
                    ;
                } else {
                    assert(d * p == p) by (nonlinear_arith)
                        requires
                            d == 1,
                    ;
                }
                lemma_pow2_pos(s as nat);
                assert(d * p > 0) by (nonlinear_arith)
                    requires
                        d >= 1,
                        p >= 1,
                ;
            }
            m = div_half_even(n, d * p);
        }
        proof {
            lemma_fits_down(n as nat, d as nat, b as int, t as int, k as nat);
        }
    }
    let sum: u128 = (k as u128) * (BINADE as u128) + m;
    if sum > INFINITE as u128 {
        INFINITE
    } else {
        sum as u64
    }
}

proof fn lemma_half_even_bound(n: nat, d: nat, x: nat)
    requires
        d > 0,
        n < d * x,
    ensures
        half_even(n, d) <= x,
{
    let q = n / d;
    vstd::arithmetic::div_mod::lemma_fundamental_div_mod(n as int, d as int);
    assert(q < x) by (nonlinear_arith)
        requires
            n < d * x,
            n >= d * q,
            d > 0,
    ;
}

proof fn lemma_fits(n: nat, d: nat, b: int, t: int, k: nat)
    requires
        d > 0,
        -200 <= b <= 200,
        -4000 <= t <= 4000,
        below(n, d, 0, b),
        k >= b + t - 53,
        k <= 5000,
        t >= k,
    ensures
        n * pow2((t - k) as nat) < d * pow2(53),
        half_even(n * pow2((t - k) as nat), d) <= pow2(53),
{
    let j = (t - k) as nat;
    lemma_below_shift(n, d, 0, b, j as int);
    lemma_below_wider(n, d, j as int, b + j, 53);
    lemma_below_plain(n, d, j, 53);
    lemma_half_even_bound(n * pow2(j), d, pow2(53));
}

proof fn lemma_fits_down(n: nat, d: nat, b: int, t: int, k: nat)
    requires
        d > 0,
        -200 <= b <= 200,
        -4000 <= t <= 4000,
        below(n, d, 0, b),
        k >= b + t - 53,
        k <= 5000,
        t < k,
    ensures
        half_even(n, d * pow2((k - t) as nat)) <= pow2(53),
{
    let s = (k - t) as nat;
    lemma_below_wider(n, d, 0, b, (53 + s) as int);
    lemma_below_plain(n, d, 0, 53 + s);
    lemma_pow2_adds(s, 53);
    lemma_pow2_pos(s);
    lemma2_to64();
    let ds = d * pow2(s);
    assert(ds > 0) by (nonlinear_arith)
        requires
            ds == d * pow2(s),
            d > 0,
            pow2(s) > 0,
    ;
    assert(n < ds * pow2(53)) by (nonlinear_arith)
        requires
            n * pow2(0) < d * pow2(53 + s),
            pow2(0) == 1,
            pow2(53 + s) == pow2(s) * pow2(53),
            ds == d * pow2(s),
    ;
    lemma_half_even_bound(n, ds, pow2(53));
}

proof fn lemma_small_shift(n: nat, d: nat, j: nat)
    requires
        n >= 1,
        d < 0x40_0000_0000_0000,
        n * pow2(j) < d * pow2(53),
    ensures
        n * pow2(j) < 0x800_0000_0000_0000_0000_0000_0000,
        pow2(j) < 0x800_0000_0000_0000_0000_0000_0000,
        j <= 126,
{
    lemma_pow126();
    assert(n * pow2(j) < 0x800_0000_0000_0000_0000_0000_0000) by (nonlinear_arith)
        requires
            n * pow2(j) < d * pow2(53),
            d < 0x40_0000_0000_0000,
            pow2(53) == 0x20_0000_0000_0000,
    ;
    assert(pow2(j) <= n * pow2(j)) by (nonlinear_arith)
        requires
            n >= 1,
    ;
    if j > 126 {
        vstd::arithmetic::power2::lemma_pow2_strictly_increases(126, j);
    }
}

} // verus!
