//! Arithmetic, conversions and bounds on [`Num`].

use super::round::{
    below, bit_length, lemma_below_shift, lemma_nearest_scale, lemma_pow126, lemma_steps_closed,
    nearest, nearest_scaled, power, round_scaled, half_even, steps,
};
use super::{scale, significand, units_of, Num, BINADE, INFINITE, NAN_BITS, SIGN};
use vstd::arithmetic::power2::{
    lemma2_to64, lemma_pow2_adds, lemma_pow2_pos, lemma_pow2_strictly_increases, lemma_pow2_unfold,
    pow2,
};
use vstd::prelude::*;

verus! {

impl Num {
    /// The correctly rounded product.
    pub open spec fn product(self, other: Num) -> Num {
        let neg = self.negative() != other.negative();
        if self.nan() || other.nan() {
            Num::spec_nan()
        } else if self.infinite() || other.infinite() {
            if self.mag() == 0 || other.mag() == 0 {
                Num::spec_nan()
            } else {
                Num::signed(neg, INFINITE as nat)
            }
        } else {
            Num::signed(neg, nearest(self.units() * other.units(), pow2(1074)))
        }
    }

    /// The correctly rounded quotient.
    pub open spec fn quotient(self, other: Num) -> Num {
        let neg = self.negative() != other.negative();
        if self.nan() || other.nan() || (self.infinite() && other.infinite()) || (self.mag() == 0 && other.mag() == 0) {
            Num::spec_nan()
        } else if self.infinite() || other.mag() == 0 {
            Num::signed(neg, INFINITE as nat)
        } else if other.infinite() {
            Num::signed(neg, 0)
        } else {
            Num::signed(neg, nearest(self.units() * pow2(1074), other.units()))
        }
    }

    /// The correctly rounded sum.
    pub open spec fn sum(self, other: Num) -> Num {
        if self.nan() || other.nan() || (self.infinite() && other.infinite() && self.negative() != other.negative()) {
            Num::spec_nan()
        } else if self.infinite() {
            self
        } else if other.infinite() {
            other
        } else {
            let s = self.signed_units() + other.signed_units();
            if s == 0 {
                Num::signed(self.negative() && other.negative(), 0)
            } else if s > 0 {
                Num::signed(false, nearest(s as nat, 1))
            } else {
                Num::signed(true, nearest((-s) as nat, 1))
            }
        }
    }

    /// The number with its sign turned round.
    pub open spec fn opposite(self) -> Num {
        Num::signed(!self.negative(), self.mag())
    }

    /// The correctly rounded difference.
    pub open spec fn difference(self, other: Num) -> Num {
        self.sum(other.opposite())
    }

    /// The number nearest to a non-negative integer.
    pub open spec fn of(n: nat) -> Num {
        Num::signed(false, nearest(n * pow2(1074), 1))
    }

    /// The whole part of the absolute value of a finite number.
    pub open spec fn whole(self) -> nat {
        self.units() / pow2(1074)
    }

    /// Conversion to an unsigned integer no greater than `top`: truncating,
    /// saturating, and zero for what is not a number.
    pub open spec fn truncated(self, top: nat) -> nat {
        if self.nan() || self.negative() {
            0
        } else if self.infinite() || self.whole() > top {
            top
        } else {
            self.whole()
        }
    }

    /// Conversion to a signed 64-bit integer: truncating, saturating, and zero
    /// for what is not a number.
    pub open spec fn truncated_signed(self) -> int {
        if self.nan() {
            0
        } else if self.negative() {
            if self.infinite() || self.whole() > 0x8000_0000_0000_0000 {
                -0x8000_0000_0000_0000
            } else {
                -(self.whole() as int)
            }
        } else if self.infinite() || self.whole() > 0x7fff_ffff_ffff_ffff {
            0x7fff_ffff_ffff_ffff
        } else {
            self.whole() as int
        }
    }

    /// The greater of two numbers; the other one where either is not a number.
    pub open spec fn greater(self, other: Num) -> Num {
        if self.nan() || (!other.nan() && self.less(other)) {
            other
        } else {
            self
        }
    }

    /// The number held between `lo` and `hi`.
    pub open spec fn bounded(self, lo: Num, hi: Num) -> Num {
        let low = if self.less(lo) {
            lo
        } else {
            self
        };
        if hi.less(low) {
            hi
        } else {
            low
        }
    }
}

pub(crate) proof fn lemma_nearest_zero(d: nat)
    requires
        d > 0,
    ensures
        nearest(0, d) == 0,
{
    assert(0 < d * 0x20_0000_0000_0000) by (nonlinear_arith)
        requires
            d > 0,
    ;
    vstd::arithmetic::div_mod::lemma_fundamental_div_mod_converse(0, d as int, 0, 0);
    assert(steps(0, d, 0) == 0 * (BINADE as nat) + half_even(0, d));
}

/// The binade of an integer.
proof fn lemma_binade(n: nat, b: nat)
    requires
        n > 0,
        b > 0,
        n < pow2(b),
        n >= pow2((b - 1) as nat),
    ensures
        below(n, 1, 0, b as int),
        !below(n, 1, 0, b - 1),
{
    let x = pow2(10000);
    lemma_pow2_adds(b, 10000);
    lemma_pow2_adds((b - 1) as nat, 10000);
    lemma_pow2_pos(10000);
    assert((b + 10000) as nat == b + 10000);
    assert((b - 1 + 10000) as nat == (b - 1) as nat + 10000);
    assert(n * x < 1 * (pow2(b) * x)) by (nonlinear_arith)
        requires
            n < pow2(b),
            x > 0,
    ;
    assert(n * x >= 1 * (pow2((b - 1) as nat) * x)) by (nonlinear_arith)
        requires
            n >= pow2((b - 1) as nat),
            x > 0,
    ;
}

/// The magnitude nearest to `n * 2^t` multiples of 2^-1074.
fn round_integer(n: u128, t: i32) -> (r: u64)
    requires
        n < 0x40_0000_0000_0000_0000_0000_0000_0000,
        -4000 <= t <= 4000,
    ensures
        r == nearest_scaled(n as nat, 1, t as int),
        r <= INFINITE,
{
    if n == 0 {
        proof {
            if t >= 0 {
                assert(0 * pow2(t as nat) == 0) by (nonlinear_arith);
                lemma_nearest_zero(1);
            } else {
                lemma_pow2_pos((-t) as nat);
                lemma_nearest_zero(1 * pow2((-t) as nat));
            }
        }
        return 0;
    }
    let b: u32 = bit_length(n);
    proof {
        lemma2_to64();
        lemma_binade(n as nat, b as nat);
    }
    round_scaled(n, 1, b as i32, t)
}

proof fn lemma_product_units(s1: nat, u1: nat, s2: nat, u2: nat)
    requires
        u1 <= 2045,
        u2 <= 2045,
    ensures
        nearest((s1 * pow2(u1)) * (s2 * pow2(u2)), pow2(1074)) == nearest_scaled(s1 * s2, 1, u1 + u2 - 1074),
{
    let t = u1 + u2 - 1074;
    let m = s1 * s2;
    lemma_pow2_adds(u1, u2);
    lemma_pow2_pos(1074);
    assert((s1 * pow2(u1)) * (s2 * pow2(u2)) == m * pow2(u1 + u2)) by (nonlinear_arith)
        requires
            m == s1 * s2,
            pow2(u1 + u2) == pow2(u1) * pow2(u2),
    ;
    if t >= 0 {
        lemma_pow2_adds(t as nat, 1074);
        lemma_nearest_scale(m * pow2(t as nat), 1, pow2(1074));
        assert(pow2(1074) * (m * pow2(t as nat)) == m * pow2(u1 + u2)) by (nonlinear_arith)
            requires
                pow2(u1 + u2) == pow2(t as nat) * pow2(1074),
        ;
        assert(pow2(1074) * 1 == pow2(1074));
    } else {
        let e = pow2((-t) as nat);
        let c = pow2(u1 + u2);
        lemma_pow2_adds((-t) as nat, u1 + u2);
        lemma_pow2_pos(u1 + u2);
        lemma_pow2_pos((-t) as nat);
        lemma_nearest_scale(m, 1 * e, c);
        assert(c * m == m * c) by (nonlinear_arith);
        assert(c * (1 * e) == pow2(1074)) by (nonlinear_arith)
            requires
                pow2(1074) == e * c,
        ;
    }
}

proof fn lemma_quotient_units(s1: nat, u1: nat, s2: nat, u2: nat)
    requires
        s2 > 0,
        u1 <= 2045,
        u2 <= 2045,
    ensures
        nearest((s1 * pow2(u1)) * pow2(1074), s2 * pow2(u2)) == nearest_scaled(s1, s2, u1 + 1074 - u2),
{
    let t = u1 + 1074 - u2;
    lemma_pow2_adds(u1, 1074);
    lemma_pow2_pos(u2);
    let x = (s1 * pow2(u1)) * pow2(1074);
    assert(x == s1 * pow2(u1 + 1074)) by (nonlinear_arith)
        requires
            x == (s1 * pow2(u1)) * pow2(1074),
            pow2(u1 + 1074) == pow2(u1) * pow2(1074),
    ;
    if t >= 0 {
        lemma_pow2_adds(t as nat, u2);
        assert(t as nat + u2 == u1 + 1074);
        lemma_nearest_scale(s1 * pow2(t as nat), s2, pow2(u2));
        assert(pow2(u2) * (s1 * pow2(t as nat)) == x) by (nonlinear_arith)
            requires
                x == s1 * pow2(u1 + 1074),
                pow2(u1 + 1074) == pow2(t as nat) * pow2(u2),
        ;
        assert(pow2(u2) * s2 == s2 * pow2(u2)) by (nonlinear_arith);
    } else {
        let e = pow2((-t) as nat);
        let c = pow2(u1 + 1074);
        lemma_pow2_adds((-t) as nat, u1 + 1074);
        lemma_pow2_pos(u1 + 1074);
        lemma_pow2_pos((-t) as nat);
        assert((-t) as nat + (u1 + 1074) == u2);
        assert(s2 * e > 0) by (nonlinear_arith)
            requires
                s2 > 0,
                e > 0,
        ;
        lemma_nearest_scale(s1, s2 * e, c);
        assert(c * s1 == s1 * c) by (nonlinear_arith);
        assert(c * (s2 * e) == s2 * pow2(u2)) by (nonlinear_arith)
            requires
                pow2(u2) == e * c,
        ;
    }
}

proof fn lemma_ratio_binade(n: nat, d: nat, bn: nat, bd: nat)
    requires
        bn > 0,
        bd > 0,
        bn <= 200,
        bd <= 200,
        pow2((bn - 1) as nat) <= n < pow2(bn),
        pow2((bd - 1) as nat) <= d < pow2(bd),
    ensures
        below(n, d, 0, bn - bd + 1),
        !below(n, d, 0, bn - bd - 1),
{
    let x = pow2(10000);
    lemma_pow2_pos(10000);
    lemma_pow2_adds(bn, 10000);
    lemma_pow2_adds((bn - 1) as nat, 10000);
    let hi = pow2((bn - bd + 1 + 10000) as nat);
    let lo = pow2((bn - bd - 1 + 10000) as nat);
    lemma_pow2_adds((bd - 1) as nat, (bn - bd + 1 + 10000) as nat);
    lemma_pow2_adds(bd, (bn - bd - 1 + 10000) as nat);
    lemma_pow2_pos((bn - bd + 1 + 10000) as nat);
    lemma_pow2_pos((bn - bd - 1 + 10000) as nat);
    assert((bd - 1) as nat + (bn - bd + 1 + 10000) as nat == bn + 10000);
    assert(bd + (bn - bd - 1 + 10000) as nat == (bn - 1) as nat + 10000);
    assert(n * x < d * hi) by (nonlinear_arith)
        requires
            n < pow2(bn),
            x > 0,
            d >= pow2((bd - 1) as nat),
            hi > 0,
            pow2((bd - 1) as nat) * hi == pow2(bn) * x,
    ;
    assert(n * x >= d * lo) by (nonlinear_arith)
        requires
            n >= pow2((bn - 1) as nat),
            x > 0,
            d < pow2(bd),
            lo > 0,
            pow2(bd) * lo == pow2((bn - 1) as nat) * x,
    ;
}

/// The exponent of the first power of two above `n / d`.
fn ratio_binade(n: u128, d: u128) -> (b: i32)
    requires
        0 < n < 0x20_0000_0000_0000,
        0 < d < 0x20_0000_0000_0000,
    ensures
        -200 <= b <= 200,
        below(n as nat, d as nat, 0, b as int),
        !below(n as nat, d as nat, 0, b - 1),
{
    let bn: u32 = bit_length(n);
    let bd: u32 = bit_length(d);
    proof {
        lemma2_to64();
        lemma_pow126();
        assert(bn <= 53) by {
            if bn > 53 {
                if bn > 54 {
                    lemma_pow2_strictly_increases(53, (bn - 1) as nat);
                }
            }
        }
        assert(bd <= 53) by {
            if bd > 53 {
                if bd > 54 {
                    lemma_pow2_strictly_increases(53, (bd - 1) as nat);
                }
            }
        }
        lemma_ratio_binade(n as nat, d as nat, bn as nat, bd as nat);
    }
    if bn >= bd {
        let s: u32 = bn - bd;
        let p: u128 = power(s);
        proof {
            if s < 53 {
                lemma_pow2_strictly_increases(s as nat, 53);
            }
            assert(d * p < 0x80_0000_0000_0000 * 0x80_0000_0000_0000) by (nonlinear_arith)
                requires
                    d < 0x80_0000_0000_0000,
                    p < 0x80_0000_0000_0000,
            ;
            lemma_order_at(n as nat, d as nat, 0, s as nat);
        }
        if n < d * p {
            s as i32
        } else {
            s as i32 + 1
        }
    } else {
        let s: u32 = bd - bn;
        let p: u128 = power(s);
        proof {
            if s < 53 {
                lemma_pow2_strictly_increases(s as nat, 53);
            }
            assert(n * p < 0x80_0000_0000_0000 * 0x80_0000_0000_0000) by (nonlinear_arith)
                requires
                    n < 0x80_0000_0000_0000,
                    p < 0x80_0000_0000_0000,
            ;
            lemma_order_at(n as nat, d as nat, s as nat, 0);
            lemma_below_shift(n as nat, d as nat, s as int, 0, -(s as int));
        }
        if n * p < d {
            -(s as i32)
        } else {
            1 - (s as i32)
        }
    }
}

proof fn lemma_order_at(n: nat, d: nat, x: nat, y: nat)
    ensures
        below(n, d, x as int, y as int) == (n * pow2(x) < d * pow2(y)),
{
    lemma_pow2_adds(x, 10000);
    lemma_pow2_adds(y, 10000);
    lemma_pow2_pos(10000);
    let a = n * pow2(x);
    let b = d * pow2(y);
    let c = pow2(10000);
    assert(n * (pow2(x) * c) == a * c) by (nonlinear_arith)
        requires
            a == n * pow2(x),
    ;
    assert(d * (pow2(y) * c) == b * c) by (nonlinear_arith)
        requires
            b == d * pow2(y),
    ;
    assert((a < b) == (a * c < b * c)) by (nonlinear_arith)
        requires
            c > 0,
    ;
}

pub(crate) proof fn lemma_magnitude_parts(mag: nat)
    ensures
        mag == scale(mag) * BINADE as nat + significand(mag),
{
}

/// A term far below the last place of the other does not change it.
proof fn lemma_absorbed(s: nat, u: nat, e: nat)
    requires
        BINADE <= s < 0x20_0000_0000_0000,
        u > 64,
        8 * e < pow2(u),
    ensures
        steps(s * pow2(u) + e, 1, 0) == u * BINADE as nat + s,
        e < s * pow2(u),
        steps((s * pow2(u) - e) as nat, 1, 0) == u * BINADE as nat + s,
{
    let p = pow2(u);
    lemma_pow126();
    lemma_pow2_adds(52, u);
    lemma_pow2_adds(53, u);
    let n = s * p + e;
    assert(s * p >= pow2(52 + u)) by (nonlinear_arith)
        requires
            s >= pow2(52),
            pow2(52 + u) == pow2(52) * p,
    ;
    assert(n < pow2(53 + u)) by (nonlinear_arith)
        requires
            n == s * p + e,
            s + 1 <= pow2(53),
            e < p,
            pow2(53 + u) == pow2(53) * p,
    ;
    lemma_steps_closed(n, 1, 0, u);
    assert(1 * pow2(u) == p);
    assert(n == p * s + e) by (nonlinear_arith)
        requires
            n == s * p + e,
    ;
    vstd::arithmetic::div_mod::lemma_fundamental_div_mod_converse(n as int, p as int, s as int, e as int);
    assert(e < s * p) by (nonlinear_arith)
        requires
            8 * e < p,
            s >= 1,
    ;
    let m = (s * p - e) as nat;
    if e == 0 {
    } else if s > BINADE {
        assert(m >= pow2(52 + u)) by (nonlinear_arith)
            requires
                m == s * p - e,
                s - 1 >= pow2(52),
                e <= p,
                pow2(52 + u) == pow2(52) * p,
        ;
        lemma_steps_closed(m, 1, 0, u);
        assert(m == p * (s - 1) + (p - e)) by (nonlinear_arith)
            requires
                m == s * p - e,
        ;
        vstd::arithmetic::div_mod::lemma_fundamental_div_mod_converse(m as int, p as int, s - 1, p - e);
    } else {
        let v = (u - 1) as nat;
        let h = pow2(v);
        lemma_pow2_unfold(u);
        lemma_pow2_adds(52, v);
        lemma_pow2_adds(53, v);
        assert(m == h * (0x20_0000_0000_0000 - 1) + (h - e)) by (nonlinear_arith)
            requires
                m == 0x10_0000_0000_0000 * p - e,
                p == 2 * h,
        ;
        assert(m >= pow2(52 + v) && m < pow2(53 + v)) by (nonlinear_arith)
            requires
                m == h * (0x20_0000_0000_0000 - 1) + (h - e),
                0 < e < h,
                pow2(52 + v) == 0x10_0000_0000_0000 * h,
                pow2(53 + v) == 0x20_0000_0000_0000 * h,
        ;
        lemma_steps_closed(m, 1, 0, v);
        assert(1 * pow2(v) == h);
        vstd::arithmetic::div_mod::lemma_fundamental_div_mod_converse(
            m as int,
            h as int,
            0x20_0000_0000_0000 - 1,
            h - e,
        );
    }
}

/// The magnitude of the sum or difference of two magnitudes, and whether the
/// difference is negative. The first has the greater scale.
fn combine(m1: u64, m2: u64, add: bool) -> (r: (bool, u64))
    requires
        m1 < INFINITE,
        m2 < INFINITE,
        scale(m1 as nat) >= scale(m2 as nat),
    ensures
        r.1 <= INFINITE,
        add ==> !r.0 && r.1 == nearest(units_of(m1 as nat) + units_of(m2 as nat), 1),
        !add && units_of(m1 as nat) >= units_of(m2 as nat) ==> !r.0 && r.1 == nearest(
            (units_of(m1 as nat) - units_of(m2 as nat)) as nat,
            1,
        ),
        !add && units_of(m1 as nat) < units_of(m2 as nat) ==> r.0 && r.1 == nearest(
            (units_of(m2 as nat) - units_of(m1 as nat)) as nat,
            1,
        ),
{
    let (s1, u1) = Num::parts(m1);
    let (s2, u2) = Num::parts(m2);
    let gap: u32 = u1 - u2;
    let ghost big = units_of(m1 as nat);
    let ghost small = units_of(m2 as nat);
    if gap > 64 {
        proof {
            lemma_magnitude_parts(m1 as nat);
            lemma_pow126();
            lemma2_to64();
            lemma_pow2_adds(u2 as nat, gap as nat);
            lemma_pow2_strictly_increases(64, gap as nat);
            lemma_pow2_pos(u2 as nat);
            assert(8 * small < pow2(u1 as nat)) by (nonlinear_arith)
                requires
                    small == s2 * pow2(u2 as nat),
                    s2 < 0x20_0000_0000_0000,
                    pow2(u1 as nat) == pow2(u2 as nat) * pow2(gap as nat),
                    pow2(gap as nat) > 0x1_0000_0000_0000_0000,
                    pow2(u2 as nat) > 0,
            ;
            lemma_absorbed(s1 as nat, u1 as nat, small);
        }
        return (false, m1);
    }
    let p: u128 = power(gap);
    proof {
        lemma_pow126();
        if gap < 64 {
            lemma_pow2_strictly_increases(gap as nat, 64);
        }
        assert(s1 * p < 0x20_0000_0000_0000 * 0x1_0000_0000_0000_0001) by (nonlinear_arith)
            requires
                s1 < 0x20_0000_0000_0000,
                p <= 0x1_0000_0000_0000_0000,
        ;
        lemma_pow2_adds(u2 as nat, gap as nat);
        lemma_pow2_pos(u2 as nat);
        assert(big == (s1 * p) * pow2(u2 as nat)) by (nonlinear_arith)
            requires
                big == s1 * pow2(u1 as nat),
                pow2(u1 as nat) == pow2(u2 as nat) * p,
        ;
    }
    let a: u128 = (s1 as u128) * p;
    let b: u128 = s2 as u128;
    proof {
        let c = pow2(u2 as nat);
        assert((a + b) * c == big + small) by (nonlinear_arith)
            requires
                big == a * c,
                small == b * c,
        ;
        assert((a - b) * c == big - small) by (nonlinear_arith)
            requires
                big == a * c,
                small == b * c,
        ;
        assert((b - a) * c == small - big) by (nonlinear_arith)
            requires
                big == a * c,
                small == b * c,
        ;
        assert((a >= b) == (big >= small)) by (nonlinear_arith)
            requires
                big == a * c,
                small == b * c,
                c > 0,
        ;
    }
    if add {
        (false, round_integer(a + b, u2 as i32))
    } else if a >= b {
        (false, round_integer(a - b, u2 as i32))
    } else {
        (true, round_integer(b - a, u2 as i32))
    }
}

impl Num {
    /// The product.
    pub fn times(self, other: Num) -> (r: Num)
        ensures
            r == self.product(other),
    {
        let a: u64 = self.magnitude();
        let b: u64 = other.magnitude();
        let neg = self.is_negative() != other.is_negative();
        if a > INFINITE || b > INFINITE {
            return Num { bits: NAN_BITS };
        }
        if a == INFINITE || b == INFINITE {
            if a == 0 || b == 0 {
                return Num { bits: NAN_BITS };
            }
            return Num::with_sign(neg, INFINITE);
        }
        let (s1, u1) = Num::parts(a);
        let (s2, u2) = Num::parts(b);
        proof {
            lemma_product_units(s1 as nat, u1 as nat, s2 as nat, u2 as nat);
            assert(s1 * s2 < 0x20_0000_0000_0000 * 0x20_0000_0000_0000) by (nonlinear_arith)
                requires
                    s1 < 0x20_0000_0000_0000,
                    s2 < 0x20_0000_0000_0000,
            ;
        }
        let m: u64 = round_integer((s1 as u128) * (s2 as u128), u1 as i32 + u2 as i32 - 1074);
        Num::with_sign(neg, m)
    }

    /// The quotient.
    pub fn over(self, other: Num) -> (r: Num)
        ensures
            r == self.quotient(other),
    {
        let a: u64 = self.magnitude();
        let b: u64 = other.magnitude();
        let neg = self.is_negative() != other.is_negative();
        if a > INFINITE || b > INFINITE || (a == INFINITE && b == INFINITE) || (a == 0 && b == 0) {
            return Num { bits: NAN_BITS };
        }
        if a == INFINITE || b == 0 {
            return Num::with_sign(neg, INFINITE);
        }
        if b == INFINITE {
            return Num::with_sign(neg, 0);
        }
        let (s1, u1) = Num::parts(a);
        let (s2, u2) = Num::parts(b);
        if a == 0 {
            proof {
                lemma_pow2_pos(u2 as nat);
                assert(s2 * pow2(u2 as nat) > 0) by (nonlinear_arith)
                    requires
                        s2 > 0,
                        pow2(u2 as nat) > 0,
                ;
                assert((0 * pow2(u1 as nat)) * pow2(1074) == 0) by (nonlinear_arith);
                lemma_nearest_zero(units_of(b as nat));
            }
            return Num::with_sign(neg, 0);
        }
        proof {
            lemma_quotient_units(s1 as nat, u1 as nat, s2 as nat, u2 as nat);
        }
        let e: i32 = ratio_binade(s1 as u128, s2 as u128);
        let m: u64 = round_scaled(s1 as u128, s2 as u128, e, u1 as i32 + 1074 - u2 as i32);
        Num::with_sign(neg, m)
    }

    /// The sum.
    pub fn plus(self, other: Num) -> (r: Num)
        ensures
            r == self.sum(other),
    {
        let a: u64 = self.magnitude();
        let b: u64 = other.magnitude();
        let na = self.is_negative();
        let nb = other.is_negative();
        if a > INFINITE || b > INFINITE || (a == INFINITE && b == INFINITE && na != nb) {
            return Num { bits: NAN_BITS };
        }
        if a == INFINITE {
            return self;
        }
        if b == INFINITE {
            return other;
        }
        let (_s1, u1) = Num::parts(a);
        let (_s2, u2) = Num::parts(b);
        proof {
            lemma_zero_units(a as nat);
            lemma_zero_units(b as nat);
            lemma_nearest_zero(1);
        }
        if u1 >= u2 {
            let (flip, m) = combine(a, b, na == nb);
            if m == 0 && self.cancels(other) {
                return Num::with_sign(na && nb, 0);
            }
            Num::with_sign(na != flip, m)
        } else {
            let (flip, m) = combine(b, a, na == nb);
            if m == 0 && self.cancels(other) {
                return Num::with_sign(na && nb, 0);
            }
            Num::with_sign(nb != flip, m)
        }
    }

    /// Whether two finite numbers add to nothing.
    fn cancels(self, other: Num) -> (r: bool)
        requires
            self.finite(),
            other.finite(),
        ensures
            r == (self.signed_units() + other.signed_units() == 0),
    {
        let a: u64 = self.magnitude();
        let b: u64 = other.magnitude();
        proof {
            lemma_units_injective(a as nat, b as nat);
            lemma_zero_units(a as nat);
            lemma_zero_units(b as nat);
        }
        if self.is_negative() == other.is_negative() {
            a == 0 && b == 0
        } else {
            a == b
        }
    }

    /// The number with its sign turned round.
    pub fn negated(self) -> (r: Num)
        ensures
            r == self.opposite(),
    {
        Num::with_sign(!self.is_negative(), self.magnitude())
    }

    /// The difference.
    pub fn minus(self, other: Num) -> (r: Num)
        ensures
            r == self.difference(other),
    {
        self.plus(other.negated())
    }

    /// The number nearest to an integer.
    pub fn from_u64(n: u64) -> (r: Num)
        ensures
            r == Num::of(n as nat),
    {
        let m: u64 = round_integer(n as u128, 1074);
        Num::with_sign(false, m)
    }

    /// The whole part of the absolute value, at most `u64::MAX`.
    fn whole_part(self) -> (r: u64)
        requires
            self.finite(),
        ensures
            self.whole() <= u64::MAX ==> r == self.whole(),
            self.whole() > u64::MAX ==> r == u64::MAX,
    {
        let (s, u) = Num::parts(self.magnitude());
        proof {
            lemma_pow126();
            lemma_pow2_pos(1074);
        }
        if u >= 1074 {
            let e: u32 = u - 1074;
            proof {
                lemma_pow2_adds(e as nat, 1074);
                let x = s * pow2(e as nat);
                let p = pow2(1074);
                assert(self.units() == p * x + 0) by (nonlinear_arith)
                    requires
                        self.units() == s * pow2(u as nat),
                        pow2(u as nat) == pow2(e as nat) * p,
                        x == s * pow2(e as nat),
                ;
                vstd::arithmetic::div_mod::lemma_fundamental_div_mod_converse(self.units() as int, p as int, x as int, 0);
            }
            if e >= 12 {
                proof {
                    if e > 12 {
                        lemma_pow2_strictly_increases(12, e as nat);
                    }
                    lemma2_to64();
                    assert(s * pow2(e as nat) >= 0x10_0000_0000_0000 * 0x1000) by (nonlinear_arith)
                        requires
                            s >= 0x10_0000_0000_0000,
                            pow2(e as nat) >= 0x1000,
                    ;
                }
                return u64::MAX;
            }
            let p: u128 = power(e);
            proof {
                if e < 11 {
                    lemma_pow2_strictly_increases(e as nat, 11);
                }
                lemma2_to64();
                assert(s * p < 0x20_0000_0000_0000 * 0x800) by (nonlinear_arith)
                    requires
                        s < 0x20_0000_0000_0000,
                        0 < p <= 0x800,
                ;
            }
            ((s as u128) * p) as u64
        } else {
            let e: u32 = 1074 - u;
            proof {
                lemma_pow2_adds(u as nat, e as nat);
                lemma_pow2_pos(u as nat);
                lemma_pow2_pos(e as nat);
                let c = pow2(u as nat);
                let q = pow2(e as nat);
                vstd::arithmetic::div_mod::lemma_truncate_middle(s as int, q as int, c as int);
                assert(self.units() / pow2(1074) == s as nat / q) by {
                    assert(self.units() == c * s) by (nonlinear_arith)
                        requires
                            self.units() == s * c,
                    ;
                    vstd::arithmetic::div_mod::lemma_div_denominator(
                        (c * s) as int,
                        c as int,
                        q as int,
                    );
                    vstd::arithmetic::div_mod::lemma_div_by_multiple(s as int, c as int);
                    assert(c * s == s * c) by (nonlinear_arith);
                }
            }
            if e >= 53 {
                proof {
                    if e > 53 {
                        lemma_pow2_strictly_increases(53, e as nat);
                    }
                    vstd::arithmetic::div_mod::lemma_basic_div(s as int, pow2(e as nat) as int);
                }
                return 0;
            }
            let p: u128 = power(e);
            ((s as u128) / p) as u64
        }
    }

    /// Conversion to `u64`: truncating, saturating, and zero for what is not a
    /// number.
    pub fn to_u64(self) -> (r: u64)
        ensures
            r == self.truncated(u64::MAX as nat),
    {
        let m: u64 = self.magnitude();
        if m > INFINITE || self.is_negative() {
            0
        } else if m == INFINITE {
            u64::MAX
        } else {
            self.whole_part()
        }
    }

    /// Conversion to `usize`: truncating, saturating, and zero for what is not
    /// a number.
    pub fn to_usize(self) -> (r: usize)
        ensures
            r == self.truncated(usize::MAX as nat),
    {
        let n: u64 = self.to_u64();
        if n > usize::MAX as u64 {
            usize::MAX
        } else {
            n as usize
        }
    }

    /// Conversion to `i64`: truncating, saturating, and zero for what is not a
    /// number.
    pub fn to_i64(self) -> (r: i64)
        ensures
            r == self.truncated_signed(),
    {
        let m: u64 = self.magnitude();
        if m > INFINITE {
            return 0;
        }
        let w: u64 = if m == INFINITE {
            u64::MAX
        } else {
            self.whole_part()
        };
        if self.is_negative() {
            if w >= SIGN {
                i64::MIN
            } else {
                -(w as i64)
            }
        } else if w >= SIGN {
            i64::MAX
        } else {
            w as i64
        }
    }

    /// The greater of two numbers.
    pub fn max_of(self, other: Num) -> (r: Num)
        ensures
            r == self.greater(other),
    {
        if self.is_nan() || (!other.is_nan() && self.lt(other)) {
            other
        } else {
            self
        }
    }

    /// The number held between `lo` and `hi`.
    pub fn clamped(self, lo: Num, hi: Num) -> (r: Num)
        ensures
            r == self.bounded(lo, hi),
    {
        let low = if self.lt(lo) {
            lo
        } else {
            self
        };
        if hi.lt(low) {
            hi
        } else {
            low
        }
    }
}

pub(crate) proof fn lemma_zero_units(m: nat)
    ensures
        (units_of(m) == 0) == (m == 0),
{
    lemma_pow2_pos(scale(m));
    assert((significand(m) * pow2(scale(m)) == 0) == (significand(m) == 0)) by (nonlinear_arith)
        requires
            pow2(scale(m)) > 0,
    ;
}

/// Magnitudes order as the values they stand for.
pub proof fn lemma_units_increase(a: nat, b: nat)
    requires
        a < b,
    ensures
        units_of(a) < units_of(b),
{
    let (s1, u1) = (significand(a), scale(a));
    let (s2, u2) = (significand(b), scale(b));
    lemma_magnitude_parts(a);
    lemma_magnitude_parts(b);
    lemma_pow2_pos(u1);
    if u1 == u2 {
        assert(s1 * pow2(u1) < s2 * pow2(u1)) by (nonlinear_arith)
            requires
                s1 < s2,
                pow2(u1) > 0,
        ;
    } else {
        assert(u1 < u2);
        let g = (u2 - u1) as nat;
        lemma_pow2_adds(u1, g);
        lemma_pow2_unfold(g);
        lemma_pow2_pos((g - 1) as nat);
        assert(s1 * pow2(u1) < s2 * pow2(u2)) by (nonlinear_arith)
            requires
                s1 < 2 * s2,
                pow2(u2) == pow2(u1) * pow2(g),
                pow2(g) >= 2,
                pow2(u1) > 0,
                s2 > 0,
        ;
    }
}

pub(crate) proof fn lemma_units_injective(a: nat, b: nat)
    ensures
        (units_of(a) == units_of(b)) == (a == b),
{
    if a < b {
        lemma_units_increase(a, b);
    } else if b < a {
        lemma_units_increase(b, a);
    }
}

/// Finite numbers compare as the values they stand for.
pub proof fn lemma_less_is_value_order(a: Num, b: Num)
    requires
        a.finite(),
        b.finite(),
    ensures
        a.less(b) == (a.signed_units() < b.signed_units()),
        a.same(b) == (a.signed_units() == b.signed_units()),
{
    let (x, y) = (a.mag(), b.mag());
    lemma_zero_units(x);
    lemma_zero_units(y);
    lemma_units_injective(x, y);
    if x < y {
        lemma_units_increase(x, y);
    } else if y < x {
        lemma_units_increase(y, x);
    }
}

/// What stands for a natural number is a number and has no minus sign.
pub proof fn lemma_of_range(n: nat)
    ensures
        !Num::of(n).nan(),
        !Num::of(n).negative(),
        Num::of(n).rank() >= 0,
{
}

} // verus!
