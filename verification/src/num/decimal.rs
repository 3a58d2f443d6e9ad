//! Decimal numerals of [`Num`] with a fixed number of places.

use super::round::{div_half_even, half_even, lemma_half_even_scale, lemma_pow126, power};
use super::{Num, INFINITE};
use crate::chars::{digit_char, numeral, push_numeral};
use vstd::arithmetic::power::{lemma_pow0, lemma_pow1, lemma_pow_adds, lemma_pow_positive, pow};
use vstd::arithmetic::power2::{
    lemma2_to64, lemma2_to64_rest, lemma_pow2_adds, lemma_pow2_pos, lemma_pow2_strictly_increases, lemma_pow2_unfold, pow2,
};
use vstd::prelude::*;
use vstd::string::StringExecFns;

verus! {

/// Ten to the power `e`.
pub open spec fn ten(e: nat) -> nat {
    pow(10, e) as nat
}

/// The number that a sequence of digits stands for, least significant first.
pub open spec fn digits_value(ds: Seq<u8>) -> nat
    decreases ds.len(),
{
    if ds.len() == 0 {
        0
    } else {
        digits_value(ds.drop_last()) + ds.last() as nat * ten((ds.len() - 1) as nat)
    }
}

pub open spec fn all_digits(ds: Seq<u8>) -> bool {
    forall|i: int| 0 <= i < ds.len() ==> ds[i] < 10
}

/// The fixed-point numeral of `q / 10^places`.
pub open spec fn point(q: nat, places: nat) -> Seq<char> {
    if places == 0 {
        numeral(q)
    } else if places == 1 {
        numeral(q / 10) + seq!['.', digit_char(q % 10)]
    } else {
        numeral(q / 100) + seq!['.', digit_char(q / 10 % 10), digit_char(q % 10)]
    }
}

impl Num {
    /// The numeral with `places` (at most two) digits after the point, rounded
    /// half to even.
    pub open spec fn fixed(self, places: nat) -> Seq<char> {
        let sign: Seq<char> = if self.negative() {
            seq!['-']
        } else {
            seq![]
        };
        if self.nan() {
            seq!['N', 'a', 'N']
        } else if self.infinite() {
            sign + seq!['i', 'n', 'f']
        } else {
            sign + point(half_even(self.units() * ten(places), pow2(1074)), places)
        }
    }

    /// A non-negative finite number of seconds in nanoseconds, rounded half to
    /// even.
    pub open spec fn nanos(self) -> nat {
        half_even(self.units() * 1_000_000_000, pow2(1074))
    }
}

pub(crate) proof fn lemma_ten_next(e: nat)
    ensures
        ten(0) == 1,
        ten(e) >= 1,
        ten(e + 1) == 10 * ten(e),
{
    lemma_pow0(10);
    lemma_pow1(10);
    lemma_pow_positive(10, e);
    lemma_pow_adds(10, e, 1);
}

pub(crate) proof fn lemma_value_push(ds: Seq<u8>, d: u8)
    ensures
        digits_value(ds.push(d)) == digits_value(ds) + d as nat * ten(ds.len()),
{
    assert(ds.push(d).drop_last() =~= ds);
}

pub(crate) proof fn lemma_value_front(ds: Seq<u8>)
    requires
        ds.len() > 0,
    ensures
        digits_value(ds) == ds[0] as nat + 10 * digits_value(ds.drop_first()),
    decreases ds.len(),
{
    lemma_ten_next(0);
    if ds.len() == 1 {
        assert(ds.drop_last() =~= Seq::empty());
        assert(ds.drop_first() =~= Seq::empty());
        assert(ds.last() as nat * 1 == ds.last() as nat);
    } else {
        let r = ds.drop_first();
        lemma_value_front(ds.drop_last());
        assert(ds.drop_last().drop_first() =~= r.drop_last());
        assert(r.last() == ds.last());
        let e = (r.len() - 1) as nat;
        lemma_ten_next(e);
        assert(ds.last() as nat * ten(e + 1) == 10 * (ds.last() as nat * ten(e))) by (nonlinear_arith)
            requires
                ten(e + 1) == 10 * ten(e),
        ;
    }
}

pub(crate) proof fn lemma_value_bound(ds: Seq<u8>)
    requires
        all_digits(ds),
    ensures
        digits_value(ds) < ten(ds.len()),
    decreases ds.len(),
{
    if ds.len() == 0 {
        lemma_ten_next(0);
    } else {
        let e = (ds.len() - 1) as nat;
        lemma_value_bound(ds.drop_last());
        lemma_ten_next(e);
        assert(ds.last() as nat * ten(e) <= 9 * ten(e)) by (nonlinear_arith)
            requires
                ds.last() <= 9,
        ;
    }
}

pub(crate) proof fn lemma_value_split(ds: Seq<u8>, g: int)
    requires
        0 <= g <= ds.len(),
    ensures
        digits_value(ds) == digits_value(ds.take(g)) + ten(g as nat) * digits_value(ds.skip(g)),
    decreases ds.len(),
{
    if g == ds.len() {
        assert(ds.take(g) =~= ds);
        assert(ds.skip(g) =~= Seq::empty());
        assert(ten(g as nat) * 0 == 0);
    } else {
        let b = ds.drop_last();
        lemma_value_split(b, g);
        assert(b.take(g) =~= ds.take(g));
        assert(b.skip(g) =~= ds.skip(g).drop_last());
        let e = (ds.len() - 1 - g) as nat;
        lemma_pow_adds(10, g as nat, e);
        lemma_pow_positive(10, g as nat);
        lemma_pow_positive(10, e);
        lemma_pow_positive(10, g as nat + e);
        assert(ten((ds.len() - 1) as nat) == ten(g as nat) * ten(e));
        let x = digits_value(b.skip(g));
        let d = ds.last() as nat;
        assert(ten(g as nat) * (x + d * ten(e)) == ten(g as nat) * x + d * (ten(g as nat) * ten(e))) by (nonlinear_arith);
    }
}

/// Multiplies a number held as digits.
pub(crate) fn multiply(ds: &mut Vec<u8>, c: u8)
    requires
        all_digits(old(ds)@),
        1 <= c <= 10,
    ensures
        all_digits(final(ds)@),
        digits_value(final(ds)@) == c as nat * digits_value(old(ds)@),
        final(ds)@.len() >= old(ds)@.len(),
        old(ds)@.len() > 0 && old(ds)@.last() > 0 ==> final(ds)@.last() > 0,
{
    let ghost start = ds@;
    let n: usize = ds.len();
    let mut carry: u8 = 0;
    let mut i: usize = 0;
    proof {
        lemma_ten_next(0);
        assert(start.take(0) =~= Seq::empty());
        assert(ds@.take(0) =~= Seq::empty());
        assert(c as nat * 0 == 0);
    }
    while i < n
        invariant
            1 <= c <= 10,
            i <= n,
            n == start.len(),
            ds@.len() == n,
            carry < 10,
            all_digits(start),
            all_digits(ds@),
            forall|j: int| i <= j < n ==> ds@[j] == start[j],
            digits_value(ds@.take(i as int)) + carry as nat * ten(i as nat) == c as nat * digits_value(
                start.take(i as int),
            ),
            i > 0 && start[i - 1] > 0 ==> carry > 0 || ds@[i - 1] > 0,
        decreases n - i,
    {
        let x: u8 = ds[i];
        proof {
            assert(x * c <= 90) by (nonlinear_arith)
                requires
                    x <= 9,
                    c <= 10,
            ;
        }
        let v: u8 = x * c + carry;
        let ghost before = ds@;
        let ghost cold = carry as nat;
        ds.set(i, v % 10);
        carry = v / 10;
        proof {
            let e = i as nat;
            lemma_ten_next(e);
            assert(ds@.take(i + 1) =~= before.take(i as int).push((v % 10) as u8));
            assert(start.take(i + 1) =~= start.take(i as int).push(x));
            lemma_value_push(before.take(i as int), (v % 10) as u8);
            lemma_value_push(start.take(i as int), x);
            let (p, a, b) = (ten(e), digits_value(before.take(i as int)), digits_value(start.take(i as int)));
            assert(a + (v % 10) as nat * p + (v / 10) as nat * (10 * p) == c as nat * (b + x as nat * p)) by (nonlinear_arith)
                requires
                    a + cold * p == c as nat * b,
                    v == x * c + cold,
                    v == 10 * (v / 10) + v % 10,
            ;
            if x > 0 {
                assert(x * c >= 1) by (nonlinear_arith)
                    requires
                        x >= 1,
                        c >= 1,
                ;
            }
        }
        i = i + 1;
    }
    proof {
        assert(ds@.take(n as int) =~= ds@);
        assert(start.take(n as int) =~= start);
    }
    if carry > 0 {
        proof {
            lemma_value_push(ds@, carry);
        }
        ds.push(carry);
    }
}

/// The digits of an integer, least significant first, without leading zeros.
fn digits_of(n: u64) -> (ds: Vec<u8>)
    ensures
        all_digits(ds@),
        ds@.len() > 0,
        ds@.len() > 1 ==> ds@.last() > 0,
        n > 0 ==> ds@.last() > 0,
        digits_value(ds@) == n,
{
    let mut ds: Vec<u8> = Vec::new();
    let mut rest: u64 = n;
    proof {
        lemma_ten_next(0);
    }
    while rest >= 10
        invariant
            all_digits(ds@),
            digits_value(ds@) + rest as nat * ten(ds@.len()) == n,
            n > 0 ==> rest > 0,
            ds@.len() > 0 ==> rest > 0,
        decreases rest,
    {
        let ghost before = ds@;
        let d: u8 = (rest % 10) as u8;
        proof {
            lemma_value_push(ds@, d);
            lemma_ten_next(ds@.len());
            let p = ten(ds@.len());
            assert((rest % 10) as nat * p + (rest / 10) as nat * (10 * p) == rest as nat * p) by (nonlinear_arith)
                requires
                    rest == 10 * (rest / 10) + rest % 10,
            ;
        }
        ds.push(d);
        rest = rest / 10;
    }
    proof {
        lemma_value_push(ds@, rest as u8);
    }
    ds.push(rest as u8);
    ds
}

/// Digits without leading zeros read most significant first are the numeral.
proof fn lemma_numeral_digits(ds: Seq<u8>)
    requires
        all_digits(ds),
        ds.len() > 0,
        ds.len() > 1 ==> ds.last() > 0,
    ensures
        numeral(digits_value(ds)) == Seq::new(ds.len(), |i: int| digit_char(ds[ds.len() - 1 - i] as nat)),
    decreases ds.len(),
{
    lemma_value_front(ds);
    let r = ds.drop_first();
    if ds.len() == 1 {
        assert(r =~= Seq::empty());
        assert(numeral(digits_value(ds)) =~= Seq::new(ds.len(), |i: int| digit_char(ds[ds.len() - 1 - i] as nat)));
    } else {
        lemma_numeral_digits(r);
        assert(r.last() == ds.last());
        assert(digits_value(r) >= 1) by {
            let e = (r.len() - 1) as nat;
            lemma_ten_next(e);
            assert(r.last() as nat * ten(e) >= 1) by (nonlinear_arith)
                requires
                    r.last() >= 1,
                    ten(e) >= 1,
            ;
        }
        assert(digits_value(ds) / 10 == digits_value(r));
        assert(digits_value(ds) % 10 == ds[0]);
        assert(numeral(digits_value(ds)) =~= Seq::new(ds.len(), |i: int| digit_char(ds[ds.len() - 1 - i] as nat)));
    }
}

/// Appends the numeral of `n * 2^e`.
fn push_shifted(out: &mut String, n: u64, e: u32)
    requires
        n > 0,
    ensures
        final(out)@ == old(out)@ + numeral(n as nat * pow2(e as nat)),
{
    let mut ds: Vec<u8> = digits_of(n);
    let mut i: u32 = 0;
    proof {
        lemma2_to64();
        assert(n as nat * 1 == n as nat);
    }
    while i < e
        invariant
            i <= e,
            all_digits(ds@),
            ds@.len() > 0,
            ds@.last() > 0,
            digits_value(ds@) == n as nat * pow2(i as nat),
        decreases e - i,
    {
        proof {
            lemma_pow2_unfold((i + 1) as nat);
            assert(2 * (n as nat * pow2(i as nat)) == n as nat * pow2((i + 1) as nat)) by (nonlinear_arith)
                requires
                    pow2((i + 1) as nat) == 2 * pow2(i as nat),
            ;
        }
        multiply(&mut ds, 2);
        i = i + 1;
    }
    let ghost start = out@;
    let ghost all = Seq::new(ds@.len(), |j: int| digit_char(ds@[ds@.len() - 1 - j] as nat));
    proof {
        lemma_numeral_digits(ds@);
    }
    let len: usize = ds.len();
    let mut j: usize = 0;
    while j < len
        invariant
            j <= len,
            len == ds@.len(),
            all_digits(ds@),
            all == Seq::new(ds@.len(), |j: int| digit_char(ds@[ds@.len() - 1 - j] as nat)),
            out@ =~= start + all.take(j as int),
        decreases len - j,
    {
        out.push((48u8 + ds[len - 1 - j]) as char);
        j = j + 1;
    }
    proof {
        assert(all.take(len as int) =~= all);
    }
}

proof fn lemma_ten_small()
    ensures
        ten(0) == 1,
        ten(1) == 10,
        ten(2) == 100,
{
    lemma_ten_next(0);
    lemma_ten_next(1);
}

proof fn lemma_fraction(s: nat, u: nat, e: nat, c: nat)
    requires
        u + e == 1074,
    ensures
        half_even((s * pow2(u)) * c, pow2(1074)) == half_even(s * c, pow2(e)),
{
    lemma_pow2_adds(u, e);
    lemma_pow2_pos(u);
    lemma_pow2_pos(e);
    lemma_half_even_scale(s * c, pow2(e), pow2(u));
    assert(pow2(u) * (s * c) == (s * pow2(u)) * c) by (nonlinear_arith);
}

proof fn lemma_integral(s: nat, u: nat, e: nat, c: nat)
    requires
        u == e + 1074,
    ensures
        half_even((s * pow2(u)) * c, pow2(1074)) == (s * pow2(e)) * c,
{
    lemma_pow2_adds(e, 1074);
    lemma_pow2_pos(1074);
    let p = pow2(1074);
    let v = (s * pow2(e)) * c;
    assert((s * pow2(u)) * c == p * v + 0) by (nonlinear_arith)
        requires
            pow2(u) == pow2(e) * p,
            v == (s * pow2(e)) * c,
    ;
    vstd::arithmetic::div_mod::lemma_fundamental_div_mod_converse(((s * pow2(u)) * c) as int, p as int, v as int, 0);
}

impl Num {
    /// Appends the numeral with `places` (at most two) digits after the point.
    pub fn push_fixed(self, out: &mut String, places: u32)
        requires
            places <= 2,
        ensures
            final(out)@ == old(out)@ + self.fixed(places as nat),
    {
        let ghost start = out@;
        let m: u64 = self.magnitude();
        if m > INFINITE {
            out.append("NaN");
            proof {
                reveal_strlit("NaN");
                assert(out@ =~= start + self.fixed(places as nat));
            }
            return ;
        }
        if self.is_negative() {
            out.push('-');
        }
        let ghost sign: Seq<char> = if self.negative() {
            seq!['-']
        } else {
            seq![]
        };
        proof {
            assert(out@ =~= start + sign);
            lemma_ten_small();
        }
        if m == INFINITE {
            out.append("inf");
            proof {
                reveal_strlit("inf");
                assert(out@ =~= start + self.fixed(places as nat));
            }
            return ;
        }
        let (s, u) = Num::parts(m);
        let ghost q = half_even(self.units() * ten(places as nat), pow2(1074));
        if u >= 1074 {
            let e: u32 = u - 1074;
            let ghost v = s as nat * pow2(e as nat);
            proof {
                lemma_integral(s as nat, u as nat, e as nat, ten(places as nat));
                assert(q == v * ten(places as nat));
            }
            push_shifted(out, s, e);
            if places == 1 {
                out.append(".0");
            } else if places == 2 {
                out.append(".00");
            }
            proof {
                reveal_strlit(".0");
                reveal_strlit(".00");
                assert(digit_char(0) == '0');
                assert(out@ =~= start + sign + point(q, places as nat));
                assert(out@ =~= start + self.fixed(places as nat));
            }
        } else {
            let e: u32 = 1074 - u;
            let c: u64 = if places == 0 {
                1
            } else if places == 1 {
                10
            } else {
                100
            };
            proof {
                lemma_fraction(s as nat, u as nat, e as nat, c as nat);
            }
            let w: u64 = Num::scaled_part(s, c, e);
            if places == 0 {
                push_numeral(out, w);
            } else if places == 1 {
                push_numeral(out, w / 10);
                out.push('.');
                out.push((48u8 + (w % 10) as u8) as char);
            } else {
                push_numeral(out, w / 100);
                out.push('.');
                out.push((48u8 + (w / 10 % 10) as u8) as char);
                out.push((48u8 + (w % 10) as u8) as char);
            }
            proof {
                assert(out@ =~= start + sign + point(q, places as nat));
                assert(out@ =~= start + self.fixed(places as nat));
            }
        }
    }

    /// `s * c / 2^e` rounded half to even.
    fn scaled_part(s: u64, c: u64, e: u32) -> (r: u64)
        requires
            s < 0x20_0000_0000_0000,
            c <= 100,
            e >= 1,
        ensures
            r == half_even(s as nat * c as nat, pow2(e as nat)),
    {
        proof {
            lemma_pow126();
            assert(s * c <= 0x20_0000_0000_0000 * 100) by (nonlinear_arith)
                requires
                    s < 0x20_0000_0000_0000,
                    c <= 100,
            ;
        }
        let n: u64 = s * c;
        if e >= 62 {
            proof {
                lemma2_to64_rest();
                if e > 62 {
                    lemma_pow2_strictly_increases(62, e as nat);
                }
                vstd::arithmetic::div_mod::lemma_fundamental_div_mod_converse(
                    n as int,
                    pow2(e as nat) as int,
                    0,
                    n as int,
                );
            }
            return 0;
        }
        let p: u128 = power(e);
        let r: u128 = div_half_even(n as u128, p);
        proof {
            vstd::arithmetic::div_mod::lemma_div_is_ordered_by_denominator(n as int, 1, p as int);
        }
        r as u64
    }

    /// The numeral with `places` (at most two) digits after the point.
    pub fn to_fixed(self, places: u32) -> (r: String)
        requires
            places <= 2,
        ensures
            r@ == self.fixed(places as nat),
    {
        let mut out = String::new();
        self.push_fixed(&mut out, places);
        proof {
            assert(out@ =~= self.fixed(places as nat));
        }
        out
    }

    /// A non-negative number of seconds in nanoseconds; `None` at 2^64 seconds
    /// and beyond, and for what is negative or not a number.
    pub fn to_nanos(self) -> (r: Option<u128>)
        ensures
            r is Some <==> !self.nan() && !self.infinite() && (!self.negative() || self.mag() == 0) && self.whole()
                <= u64::MAX,
            r matches Some(n) ==> n == self.nanos() && n < 0x1_0000_0000_0000_0000 * 1_000_000_000,
    {
        let m: u64 = self.magnitude();
        if m >= INFINITE {
            return None;
        }
        if self.is_negative() && m > 0 {
            return None;
        }
        let (s, u) = Num::parts(m);
        let c: u128 = 1_000_000_000;
        proof {
            lemma_pow126();
            lemma_pow2_pos(1074);
        }
        if u >= 1074 {
            let e: u32 = u - 1074;
            proof {
                lemma_integral(s as nat, u as nat, e as nat, c as nat);
                lemma_pow2_adds(e as nat, 1074);
                let x = s as nat * pow2(e as nat);
                let p = pow2(1074);
                assert(self.units() == p * x + 0) by (nonlinear_arith)
                    requires
                        self.units() == s * pow2(u as nat),
                        pow2(u as nat) == pow2(e as nat) * p,
                        x == s * pow2(e as nat),
                ;
                vstd::arithmetic::div_mod::lemma_fundamental_div_mod_converse(self.units() as int, p as int, x as int, 0);
                lemma2_to64();
                if e >= 12 {
                    if e > 12 {
                        lemma_pow2_strictly_increases(12, e as nat);
                    }
                    assert(s * pow2(e as nat) >= 0x10_0000_0000_0000 * 0x1000) by (nonlinear_arith)
                        requires
                            s >= 0x10_0000_0000_0000,
                            pow2(e as nat) >= 0x1000,
                    ;
                } else {
                    if e < 11 {
                        lemma_pow2_strictly_increases(e as nat, 11);
                    }
                    assert(s * pow2(e as nat) < 0x20_0000_0000_0000 * 0x800) by (nonlinear_arith)
                        requires
                            s < 0x20_0000_0000_0000,
                            pow2(e as nat) <= 0x800,
                            s > 0,
                    ;
                }
            }
            if e >= 12 {
                return None;
            }
            let p: u128 = power(e);
            Some((s as u128) * p * c)
        } else {
            let e: u32 = 1074 - u;
            proof {
                lemma_fraction(s as nat, u as nat, e as nat, c as nat);
                lemma_fraction(s as nat, u as nat, e as nat, 1);
                lemma_whole_small(self, s as nat, u as nat, e as nat);
            }
            let n: u128 = (s as u128) * c;
            if e >= 100 {
                proof {
                    lemma2_to64_rest();
                    lemma_pow2_adds(64, 36);
                    lemma2_to64();
                    if e > 100 {
                        lemma_pow2_strictly_increases(100, e as nat);
                    }
                    vstd::arithmetic::div_mod::lemma_fundamental_div_mod_converse(
                        n as int,
                        pow2(e as nat) as int,
                        0,
                        n as int,
                    );
                }
                return Some(0);
            }
            let p: u128 = power(e);
            let r: u128 = div_half_even(n, p);
            proof {
                vstd::arithmetic::div_mod::lemma_div_is_ordered_by_denominator(n as int, 1, p as int);
            }
            Some(r)
        }
    }
}

proof fn lemma_whole_small(x: Num, s: nat, u: nat, e: nat)
    requires
        x.units() == s * pow2(u),
        s < 0x20_0000_0000_0000,
        u + e == 1074,
    ensures
        x.whole() <= u64::MAX,
{
    lemma_pow2_adds(u, e);
    lemma_pow2_pos(u);
    lemma_pow2_pos(e);
    lemma_pow2_pos(1074);
    assert(x.units() <= s * pow2(1074)) by (nonlinear_arith)
        requires
            x.units() == s * pow2(u),
            pow2(1074) == pow2(u) * pow2(e),
            pow2(e) >= 1,
    ;
    let p = pow2(1074) as int;
    vstd::arithmetic::div_mod::lemma_div_is_ordered(x.units() as int, (s * pow2(1074)) as int, p);
    vstd::arithmetic::div_mod::lemma_div_by_multiple(s as int, p);
}

} // verus!
