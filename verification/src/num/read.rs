//! Reading a decimal numeral, rounded correctly.

use super::arith::lemma_nearest_zero;
use super::decimal::{
    all_digits, digits_value, lemma_ten_next, lemma_value_bound, lemma_value_front, lemma_value_push, lemma_value_split,
    multiply, ten,
};
use super::round::{
    half_even, lemma_half_even_scale, lemma_nearest_scale, lemma_pow126, lemma_steps_closed,
    nearest, steps,
};
use super::{Num, BINADE, INFINITE, NAN_BITS};
use vstd::arithmetic::power::{lemma_pow_adds, lemma_pow_positive};
use vstd::arithmetic::power2::{lemma2_to64, lemma_pow2_adds, lemma_pow2_pos, lemma_pow2_unfold, pow2};
use vstd::prelude::*;

verus! {

pub open spec fn is_digit(c: char) -> bool {
    '0' <= c <= '9'
}

pub open spec fn only_digits(s: Seq<char>) -> bool {
    forall|i: int| 0 <= i < s.len() ==> is_digit(s[i])
}

/// The number that a decimal numeral stands for.
pub open spec fn numeral_value(s: Seq<char>) -> nat
    decreases s.len(),
{
    if s.len() == 0 {
        0
    } else {
        10 * numeral_value(s.drop_last()) + (s.last() as int - 48) as nat
    }
}

/// The first place at or after `i` that holds `a` or `b`; the end when none
/// does.
pub open spec fn place_of(s: Seq<char>, a: char, b: char, i: int) -> int
    decreases s.len() - i,
{
    if i >= s.len() || s[i] == a || s[i] == b {
        i
    } else {
        place_of(s, a, b, i + 1)
    }
}

/// An exponent's digits; the count stops growing past sixteen bits.
pub open spec fn exponent_value(s: Seq<char>) -> nat
    decreases s.len(),
{
    if s.len() == 0 {
        0
    } else {
        let v = exponent_value(s.drop_last());
        if v < 0x10000 {
            10 * v + (s.last() as int - 48) as nat
        } else {
            v
        }
    }
}

/// The magnitude nearest to `n * 10^e`.
pub open spec fn nearest_decimal(n: nat, e: int) -> nat {
    if e >= 0 {
        nearest(n * ten(e as nat) * pow2(1074), 1)
    } else {
        nearest(n * pow2(1074), ten((-e) as nat))
    }
}

/// The magnitude of `digits[.digits]` scaled by a power of ten.
pub open spec fn read_mantissa(s: Seq<char>, e: int) -> Option<nat> {
    let dot = place_of(s, '.', '.', 0);
    let whole = s.take(dot);
    let frac = if dot < s.len() {
        s.skip(dot + 1)
    } else {
        Seq::empty()
    };
    if only_digits(whole) && only_digits(frac) && whole.len() + frac.len() > 0 {
        Some(nearest_decimal(numeral_value(whole + frac), e - frac.len()))
    } else {
        None
    }
}

/// The magnitude of an unsigned numeral with an optional exponent.
pub open spec fn read_unsigned(s: Seq<char>) -> Option<nat> {
    let at = place_of(s, 'e', 'E', 0);
    if at >= s.len() {
        read_mantissa(s, 0)
    } else {
        let tail = s.skip(at + 1);
        let neg = tail.len() > 0 && tail[0] == '-';
        let digits = if tail.len() > 0 && (tail[0] == '-' || tail[0] == '+') {
            tail.skip(1)
        } else {
            tail
        };
        if digits.len() > 0 && only_digits(digits) {
            let v = exponent_value(digits);
            read_mantissa(
                s.take(at),
                if neg {
                    -(v as int)
                } else {
                    v as int
                },
            )
        } else {
            None
        }
    }
}

pub open spec fn ascii_lower(c: char) -> char {
    if 'A' <= c <= 'Z' {
        (c as u8 + 32) as u8 as char
    } else {
        c
    }
}

/// Whether two texts are equal when ASCII letters lose their case.
pub open spec fn same_word(s: Seq<char>, w: Seq<char>) -> bool {
    s.len() == w.len() && forall|i: int| 0 <= i < s.len() ==> ascii_lower(s[i]) == w[i]
}

/// The number that a decimal text stands for, rounded to nearest.
pub open spec fn read_number(s: Seq<char>) -> Option<Num> {
    let neg = s.len() > 0 && s[0] == '-';
    let body = if s.len() > 0 && (s[0] == '-' || s[0] == '+') {
        s.skip(1)
    } else {
        s
    };
    if same_word(body, seq!['i', 'n', 'f']) || same_word(body, seq!['i', 'n', 'f', 'i', 'n', 'i', 't', 'y']) {
        Some(Num::signed(neg, INFINITE as nat))
    } else if same_word(body, seq!['n', 'a', 'n']) {
        Some(Num::spec_nan())
    } else {
        match read_unsigned(body) {
            Some(m) => Some(Num::signed(neg, m)),
            None => None,
        }
    }
}

proof fn lemma_nearest_cross(n1: nat, d1: nat, n2: nat, d2: nat)
    requires
        d1 > 0,
        d2 > 0,
        n1 * d2 == n2 * d1,
    ensures
        nearest(n1, d1) == nearest(n2, d2),
{
    lemma_nearest_scale(n1, d1, d2);
    lemma_nearest_scale(n2, d2, d1);
    assert(d2 * n1 == n1 * d2) by (nonlinear_arith);
    assert(d1 * n2 == n2 * d1) by (nonlinear_arith);
    assert(d2 * d1 == d1 * d2) by (nonlinear_arith);
}

proof fn lemma_steps_floor(n: nat, d: nat, k: nat)
    requires
        d > 0,
    ensures
        steps(n, d, k) >= k * BINADE as nat,
    decreases n - d,
{
    if n < d * 0x20_0000_0000_0000 {
    } else {
        lemma_steps_floor(n, 2 * d, k + 1);
        assert((k + 1) * (BINADE as nat) >= k * (BINADE as nat));
    }
}

proof fn lemma_steps_high(n: nat, d: nat, k: nat, j: nat)
    requires
        d > 0,
        n >= d * pow2(53 + j),
    ensures
        steps(n, d, k) >= (k + j + 1) * BINADE as nat,
    decreases j,
{
    lemma_pow126();
    lemma_pow2_adds(53, j);
    lemma_pow2_pos(j);
    assert(d * pow2(53 + j) >= d * 0x20_0000_0000_0000) by (nonlinear_arith)
        requires
            pow2(53 + j) == 0x20_0000_0000_0000 * pow2(j),
            pow2(j) >= 1,
    ;
    if j == 0 {
        lemma_steps_floor(n, 2 * d, k + 1);
    } else {
        let i = (j - 1) as nat;
        lemma_pow2_unfold(53 + j);
        assert(d * pow2(53 + j) == (2 * d) * pow2(53 + i)) by (nonlinear_arith)
            requires
                pow2(53 + j) == 2 * pow2(53 + i),
        ;
        lemma_steps_high(n, 2 * d, k + 1, i);
        assert((k + 1) + i + 1 == k + j + 1);
    }
}

proof fn lemma_ten_beats_two(i: nat)
    ensures
        ten(4 * i) >= pow2(13 * i),
    decreases i,
{
    lemma_ten_next(0);
    lemma_ten_next(1);
    lemma_ten_next(2);
    lemma_ten_next(3);
    lemma2_to64();
    if i > 0 {
        let j = (i - 1) as nat;
        lemma_ten_beats_two(j);
        lemma_pow_adds(10, 4 * j, 4);
        lemma_pow_positive(10, 4 * j);
        lemma_pow_positive(10, 4);
        lemma_pow2_adds(13 * j, 13);
        assert(ten(4 * i) == ten(4 * j) * 10000);
        assert(pow2(13 * i) == pow2(13 * j) * 8192);
        assert(ten(4 * j) * 10000 >= pow2(13 * j) * 8192) by (nonlinear_arith)
            requires
                ten(4 * j) >= pow2(13 * j),
        ;
    }
}

proof fn lemma_ten_adds(a: nat, b: nat)
    ensures
        ten(a + b) == ten(a) * ten(b),
        ten(a) > 0,
{
    lemma_pow_adds(10, a, b);
    lemma_pow_positive(10, a);
    lemma_pow_positive(10, b);
}

/// The digits above the first `g`, unless they stand for 2^53 or more.
fn whole_digits(ds: &Vec<u8>, g: u128) -> (r: Option<u64>)
    requires
        all_digits(ds@),
    ensures
        r matches Some(v) ==> v == digits_value(ds@) / ten(g as nat) && v < 0x20_0000_0000_0000,
        r is None ==> digits_value(ds@) / ten(g as nat) >= 0x20_0000_0000_0000,
{
    let n: usize = ds.len();
    proof {
        lemma_value_bound(ds@);
        lemma_ten_next(g as nat);
    }
    if n as u128 <= g {
        proof {
            lemma_ten_adds(n as nat, (g - n) as nat);
            lemma_ten_next((g - n) as nat);
            assert(ten(n as nat) <= ten(n as nat) * ten((g - n) as nat)) by (nonlinear_arith)
                requires
                    ten((g - n) as nat) >= 1,
            ;
            vstd::arithmetic::div_mod::lemma_basic_div(digits_value(ds@) as int, ten(g as nat) as int);
        }
        return Some(0);
    }
    let low: usize = g as usize;
    proof {
        lemma_value_split(ds@, low as int);
        lemma_value_bound(ds@.take(low as int));
        let top = digits_value(ds@.skip(low as int));
        let rest = digits_value(ds@.take(low as int));
        assert(digits_value(ds@) == top * ten(g as nat) + rest) by (nonlinear_arith)
            requires
                digits_value(ds@) == rest + ten(g as nat) * top,
        ;
        vstd::arithmetic::div_mod::lemma_fundamental_div_mod_converse(
            digits_value(ds@) as int,
            ten(g as nat) as int,
            top as int,
            rest as int,
        );
        assert(ds@.skip(n as int) =~= Seq::empty());
    }
    let mut acc: u64 = 0;
    let mut i: usize = n;
    while i > low
        invariant
            low <= i <= n,
            n == ds@.len(),
            all_digits(ds@),
            acc < 0x20_0000_0000_0000,
            acc == digits_value(ds@.skip(i as int)),
            digits_value(ds@) / ten(g as nat) == digits_value(ds@.skip(low as int)),
            low == g,
        decreases i,
    {
        let d: u8 = ds[i - 1];
        proof {
            lemma_value_front(ds@.skip(i - 1));
            assert(ds@.skip(i - 1).drop_first() =~= ds@.skip(i as int));
        }
        let next: u64 = acc * 10 + d as u64;
        i = i - 1;
        if next >= 0x20_0000_0000_0000 {
            proof {
                lemma_value_skip(ds@, low as int, i as int);
            }
            return None;
        }
        acc = next;
    }
    Some(acc)
}

proof fn lemma_value_skip(ds: Seq<u8>, a: int, b: int)
    requires
        0 <= a <= b <= ds.len(),
    ensures
        digits_value(ds.skip(a)) >= digits_value(ds.skip(b)),
    decreases b - a,
{
    if a < b {
        lemma_value_skip(ds, a + 1, b);
        lemma_value_front(ds.skip(a));
        assert(ds.skip(a).drop_first() =~= ds.skip(a + 1));
    }
}

/// Whether the digits below the first `g` round the rest up.
fn rounds_up(ds: &Vec<u8>, g: u128, odd: bool) -> (r: bool)
    requires
        all_digits(ds@),
    ensures
        r == ({
            let rest = 2 * (digits_value(ds@) % ten(g as nat));
            rest > ten(g as nat) || (rest == ten(g as nat) && odd)
        }),
{
    let n: usize = ds.len();
    let ghost all = digits_value(ds@);
    proof {
        lemma_value_bound(ds@);
        lemma_ten_next(g as nat);
    }
    if g == 0 {
        proof {
            lemma_ten_next(0);
            assert(all % 1 == 0);
        }
        return false;
    }
    let ghost h = (g - 1) as nat;
    proof {
        lemma_ten_next(h);
    }
    if n as u128 <= g - 1 {
        proof {
            lemma_ten_adds(n as nat, (h - n) as nat);
            lemma_ten_next((h - n) as nat);
            assert(ten(n as nat) <= ten(n as nat) * ten((h - n) as nat)) by (nonlinear_arith)
                requires
                    ten((h - n) as nat) >= 1,
            ;
            vstd::arithmetic::div_mod::lemma_small_mod(all, ten(g as nat));
        }
        return false;
    }
    let at: usize = (g - 1) as usize;
    let top: u8 = ds[at];
    let ghost low = digits_value(ds@.take(at as int));
    proof {
        lemma_value_split(ds@, at + 1);
        assert(ds@.take(at + 1) =~= ds@.take(at as int).push(top));
        lemma_value_push(ds@.take(at as int), top);
        lemma_value_bound(ds@.take(at as int));
        lemma_value_bound(ds@.take(at + 1));
        let top_part = digits_value(ds@.skip(at + 1));
        let low_part = digits_value(ds@.take(at + 1));
        assert(ten((at + 1) as nat) == ten(g as nat));
        assert(all == top_part * ten(g as nat) + low_part) by (nonlinear_arith)
            requires
                all == low_part + ten(g as nat) * top_part,
        ;
        vstd::arithmetic::div_mod::lemma_fundamental_div_mod_converse(
            all as int,
            ten(g as nat) as int,
            digits_value(ds@.skip(at + 1)) as int,
            digits_value(ds@.take(at + 1)) as int,
        );
        assert(all % ten(g as nat) == low + top as nat * ten(h));
    }
    if top > 5 {
        proof {
            assert(2 * (low + top as nat * ten(h)) > 10 * ten(h)) by (nonlinear_arith)
                requires
                    top >= 6,
                    ten(h) >= 1,
            ;
        }
        return true;
    }
    if top < 5 {
        proof {
            assert(2 * (low + top as nat * ten(h)) < 10 * ten(h)) by (nonlinear_arith)
                requires
                    top <= 4,
                    low < ten(h),
            ;
        }
        return false;
    }
    let mut i: usize = 0;
    while i < at
        invariant
            i <= at < ds@.len(),
            all_digits(ds@),
            digits_value(ds@.take(i as int)) == 0,
            low == digits_value(ds@.take(at as int)),
            all % ten(g as nat) == low + 5 * ten(h),
            ten(g as nat) == 10 * ten(h),
            all == digits_value(ds@),
        decreases at - i,
    {
        let ghost prefix = ds@.take(i as int);
        proof {
            lemma_value_push(prefix, ds@[i as int]);
            assert(prefix.push(ds@[i as int]) =~= ds@.take(i + 1));
        }
        proof {
            assert(0 * ten(i as nat) == 0) by (nonlinear_arith);
        }
        if ds[i] > 0 {
            proof {
                lemma_ten_next(i as nat);
                assert(ds@[i as int] as nat * ten(i as nat) >= 1) by (nonlinear_arith)
                    requires
                        ds@[i as int] >= 1,
                        ten(i as nat) >= 1,
                ;
                lemma_value_take(ds@, i + 1, at as int);
            }
            return true;
        }
        i = i + 1;
    }
    odd
}

proof fn lemma_value_take(ds: Seq<u8>, a: int, b: int)
    requires
        0 <= a <= b <= ds.len(),
    ensures
        digits_value(ds.take(a)) <= digits_value(ds.take(b)),
    decreases b - a,
{
    if a < b {
        lemma_value_take(ds, a, b - 1);
        assert(ds.take(b) =~= ds.take(b - 1).push(ds[b - 1]));
        lemma_value_push(ds.take(b - 1), ds[b - 1]);
    }
}

/// The magnitude nearest to the digits divided by 10^`f`.
fn round_digits(digits: Vec<u8>, f: u128) -> (r: u64)
    requires
        all_digits(digits@),
        f <= 0x1_0000_0000_0000_0000_0000,
    ensures
        r == nearest(digits_value(digits@) * pow2(1074), ten(f as nat)),
        r <= INFINITE,
{
    let mut ds: Vec<u8> = digits;
    let ghost n = digits_value(ds@);
    let mut g: u128 = f;
    let mut k: u32 = 1074;
    let ghost tf = ten(f as nat);
    proof {
        lemma_ten_next(f as nat);
        assert(n * ten(g as nat) * pow2(1074) == n * pow2(k as nat) * tf) by (nonlinear_arith)
            requires
                ten(g as nat) == tf,
                k == 1074,
        ;
    }
    let mut whole: Option<u64> = whole_digits(&ds, g);
    while whole.is_none() && k < 3074
        invariant
            all_digits(ds@),
            1074 <= k <= 3074,
            g <= 0x1_0000_0000_0000_0000_0000 + k,
            n * ten(g as nat) * pow2(1074) == digits_value(ds@) * pow2(k as nat) * tf,
            whole matches Some(v) ==> v == digits_value(ds@) / ten(g as nat) && v < 0x20_0000_0000_0000,
            whole is None ==> digits_value(ds@) / ten(g as nat) >= 0x20_0000_0000_0000,
        decreases 3074 - k,
    {
        let ghost d = digits_value(ds@);
        proof {
            lemma_ten_next(g as nat);
            lemma_pow2_unfold((k + 1) as nat);
            let (x, y, p, q) = (ten(g as nat), ten((g + 1) as nat), pow2(k as nat), pow2((k + 1) as nat));
            let z = pow2(1074);
            assert(n * y * z == (5 * d) * q * tf) by (nonlinear_arith)
                requires
                    n * x * z == d * p * tf,
                    y == 10 * x,
                    q == 2 * p,
            ;
        }
        multiply(&mut ds, 5);
        g = g + 1;
        k = k + 1;
        whole = whole_digits(&ds, g);
    }
    proof {
        lemma_ten_next(g as nat);
        lemma_pow2_pos(k as nat);
        lemma_pow2_pos(1074);
    }
    if whole.is_none() {
        proof {
            let d = digits_value(ds@);
            let x = ten(g as nat);
            let p = pow2(k as nat);
            lemma_cross(n, pow2(1074), tf, d, p, x);
            vstd::arithmetic::div_mod::lemma_fundamental_div_mod(d as int, x as int);
            lemma_pow126();
            lemma_pow2_adds(53, k as nat);
            assert(d * p >= x * pow2(53 + k as nat)) by (nonlinear_arith)
                requires
                    d >= x * (d / x),
                    d / x >= 0x20_0000_0000_0000,
                    pow2(53 + k as nat) == 0x20_0000_0000_0000 * p,
                    x > 0,
                    p > 0,
            ;
            lemma_steps_high(d * p, x, 0, k as nat);
        }
        return INFINITE;
    }
    let mut w: u64 = match whole {
        Some(v) => v,
        None => 0,
    };
    while w < BINADE && k > 0
        invariant
            all_digits(ds@),
            k <= 3074,
            w == digits_value(ds@) / ten(g as nat),
            w < 0x20_0000_0000_0000,
            n * ten(g as nat) * pow2(1074) == digits_value(ds@) * pow2(k as nat) * tf,
        decreases k,
    {
        let ghost d = digits_value(ds@);
        let ghost x = ten(g as nat);
        proof {
            lemma_ten_next(g as nat);
            lemma_pow2_unfold(k as nat);
            let (p, q) = (pow2(k as nat), pow2((k - 1) as nat));
            let z = pow2(1074);
            assert(n * x * z == (2 * d) * q * tf) by (nonlinear_arith)
                requires
                    n * x * z == d * p * tf,
                    p == 2 * q,
            ;
            vstd::arithmetic::div_mod::lemma_fundamental_div_mod(d as int, x as int);
            vstd::arithmetic::div_mod::lemma_fundamental_div_mod((2 * d) as int, x as int);
            assert((2 * d) / x < 2 * (d / x) + 2) by (nonlinear_arith)
                requires
                    d == x * (d / x) + d % x,
                    0 <= d % x < x,
                    2 * d == x * ((2 * d) / x) + (2 * d) % x,
                    0 <= (2 * d) % x,
                    x > 0,
            ;
        }
        multiply(&mut ds, 2);
        k = k - 1;
        match whole_digits(&ds, g) {
            Some(v) => {
                w = v;
            },
            None => {
                proof {
                    assert(false);
                }
            },
        }
    }
    let up = rounds_up(&ds, g, w % 2 == 1);
    let ghost d = digits_value(ds@);
    let ghost x = ten(g as nat);
    let m: u64 = if up {
        w + 1
    } else {
        w
    };
    proof {
        lemma_ten_next(g as nat);
        let p = pow2(k as nat);
        lemma_pow2_pos(k as nat);
        lemma_cross(n, pow2(1074), tf, d, p, x);
        lemma_pow126();
        lemma_pow2_adds(53, k as nat);
        lemma_pow2_adds(52, k as nat);
        vstd::arithmetic::div_mod::lemma_fundamental_div_mod(d as int, x as int);
        assert(d * p < x * pow2(53 + k as nat)) by (nonlinear_arith)
            requires
                d == x * (d / x) + d % x,
                d % x < x,
                d / x + 1 <= 0x20_0000_0000_0000,
                pow2(53 + k as nat) == 0x20_0000_0000_0000 * p,
                p > 0,
                x > 0,
        ;
        if k > 0 {
            assert(d * p >= x * pow2(52 + k as nat)) by (nonlinear_arith)
                requires
                    d >= x * (d / x),
                    d / x >= 0x10_0000_0000_0000,
                    pow2(52 + k as nat) == 0x10_0000_0000_0000 * p,
                    p > 0,
                    x > 0,
            ;
        }
        lemma_steps_closed(d * p, x, 0, k as nat);
        lemma_half_even_scale(d, x, p);
        assert(p * d == d * p) by (nonlinear_arith);
        assert(p * x == x * p) by (nonlinear_arith);
        assert(m == half_even(d, x));
    }
    if k >= 2047 {
        return INFINITE;
    }
    let sum: u64 = (k as u64) * BINADE + m;
    if sum > INFINITE {
        INFINITE
    } else {
        sum
    }
}

proof fn lemma_cross(n: nat, z: nat, tf: nat, d: nat, p: nat, x: nat)
    requires
        n * x * z == d * p * tf,
        x > 0,
        tf > 0,
    ensures
        nearest(n * z, tf) == nearest(d * p, x),
{
    assert((n * z) * x == (d * p) * tf) by (nonlinear_arith)
        requires
            n * x * z == d * p * tf,
    ;
    lemma_nearest_cross(n * z, tf, d * p, x);
}


/// The magnitude nearest to the digits scaled by 10^`e`.
fn round_decimal(digits: Vec<u8>, e: i128) -> (r: u64)
    requires
        all_digits(digits@),
        -0x1_0000_0000_0000_0000_0000 <= e <= 0x1_0000_0000_0000_0000_0000,
    ensures
        r == nearest_decimal(digits_value(digits@), e as int),
        r <= INFINITE,
{
    let ghost n = digits_value(digits@);
    proof {
        lemma_pow2_pos(1074);
    }
    if all_zero(&digits) {
        proof {
            if e >= 0 {
                assert(0 * ten(e as nat) * pow2(1074) == 0) by (nonlinear_arith);
                lemma_nearest_zero(1);
            } else {
                assert(0 * pow2(1074) == 0) by (nonlinear_arith);
                lemma_ten_next((-e) as nat);
                lemma_nearest_zero(ten((-e) as nat));
            }
        }
        return 0;
    }
    if e > 400 {
        proof {
            lemma_ten_adds(400, (e - 400) as nat);
            lemma_ten_next((e - 400) as nat);
            lemma_ten_beats_two(100);
            lemma_pow2_adds(1300, 1074);
            let x = n * ten(e as nat) * pow2(1074);
            assert(x >= pow2(1300) * pow2(1074)) by (nonlinear_arith)
                requires
                    x == n * (ten(400) * ten((e - 400) as nat)) * pow2(1074),
                    n >= 1,
                    ten(400) >= pow2(1300),
                    ten((e - 400) as nat) >= 1,
                    pow2(1074) > 0,
            ;
            lemma_steps_high(x, 1, 0, 2321);
        }
        return INFINITE;
    }
    if e >= 0 {
        let mut ds: Vec<u8> = digits;
        let mut i: i128 = 0;
        proof {
            lemma_ten_next(0);
            assert(n * 1 == n) by (nonlinear_arith);
        }
        while i < e
            invariant
                0 <= i <= e <= 400,
                all_digits(ds@),
                digits_value(ds@) == n * ten(i as nat),
            decreases e - i,
        {
            proof {
                lemma_ten_next(i as nat);
                assert(10 * (n * ten(i as nat)) == n * ten((i + 1) as nat)) by (nonlinear_arith)
                    requires
                        ten((i + 1) as nat) == 10 * ten(i as nat),
                ;
            }
            multiply(&mut ds, 10);
            i = i + 1;
        }
        proof {
            lemma_ten_next(0);
        }
        round_digits(ds, 0)
    } else {
        let g: u128 = (-e) as u128;
        if g > digits.len() as u128 + 400 {
            proof {
                lemma_value_bound(digits@);
                let len = digits@.len();
                lemma_ten_adds(len, (g - len) as nat);
                lemma_ten_adds(400, (g - len - 400) as nat);
                lemma_ten_next((g - len - 400) as nat);
                lemma_ten_beats_two(100);
                lemma_pow2_adds(1074, 226);
                lemma2_to64();
                vstd::arithmetic::power2::lemma_pow2_strictly_increases(1, 226);
                let x = n * pow2(1074);
                let d = ten(g as nat);
                let a = ten((g - len) as nat);
                let c = ten((g - len - 400) as nat);
                assert(a >= pow2(1300)) by (nonlinear_arith)
                    requires
                        a == ten(400) * c,
                        ten(400) >= pow2(1300),
                        c >= 1,
                ;
                assert(a > 2 * pow2(1074)) by (nonlinear_arith)
                    requires
                        a >= pow2(1074) * pow2(226),
                        pow2(226) > 2,
                        pow2(1074) > 0,
                ;
                assert(2 * x < d) by (nonlinear_arith)
                    requires
                        x == n * pow2(1074),
                        d == ten(len) * a,
                        n < ten(len),
                        a > 2 * pow2(1074),
                        pow2(1074) > 0,
                ;
                vstd::arithmetic::div_mod::lemma_fundamental_div_mod_converse(x as int, d as int, 0, x as int);
                assert(x < d * 0x20_0000_0000_0000) by (nonlinear_arith)
                    requires
                        2 * x < d,
                ;
                assert(steps(x, d, 0) == 0 * (BINADE as nat) + half_even(x, d));
            }
            return 0;
        }
        round_digits(digits, g)
    }
}

/// Whether the digits stand for zero.
fn all_zero(ds: &Vec<u8>) -> (r: bool)
    ensures
        r == (digits_value(ds@) == 0),
{
    let n: usize = ds.len();
    let mut i: usize = 0;
    while i < n
        invariant
            i <= n,
            n == ds@.len(),
            digits_value(ds@.take(i as int)) == 0,
        decreases n - i,
    {
        proof {
            lemma_value_push(ds@.take(i as int), ds@[i as int]);
            assert(ds@.take(i as int).push(ds@[i as int]) =~= ds@.take(i + 1));
            lemma_ten_next(i as nat);
            assert(0 * ten(i as nat) == 0) by (nonlinear_arith);
        }
        if ds[i] != 0 {
            proof {
                assert(ds@[i as int] as nat * ten(i as nat) >= 1) by (nonlinear_arith)
                    requires
                        ds@[i as int] >= 1,
                        ten(i as nat) >= 1,
                ;
                lemma_value_take(ds@, i + 1, n as int);
                assert(ds@.take(n as int) =~= ds@);
            }
            return false;
        }
        i = i + 1;
    }
    proof {
        assert(ds@.take(n as int) =~= ds@);
    }
    true
}

/// The first place in `from..to` that holds `a` or `b`; `to` when none does.
fn find_place(s: &Vec<char>, a: char, b: char, from: usize, to: usize) -> (r: usize)
    requires
        from <= to <= s@.len(),
    ensures
        from <= r <= to,
        r - from == place_of(s@.subrange(from as int, to as int), a, b, 0),
{
    let ghost w = s@.subrange(from as int, to as int);
    let mut i: usize = from;
    while i < to && s[i] != a && s[i] != b
        invariant
            from <= i <= to <= s@.len(),
            w == s@.subrange(from as int, to as int),
            place_of(w, a, b, 0) == place_of(w, a, b, i - from),
        decreases to - i,
    {
        i = i + 1;
    }
    i
}

pub fn is_digit_char(c: char) -> (r: bool)
    ensures
        r == is_digit(c),
{
    '0' <= c && c <= '9'
}

/// Whether every character in `from..to` is a digit.
fn digits_only(s: &Vec<char>, from: usize, to: usize) -> (r: bool)
    requires
        from <= to <= s@.len(),
    ensures
        r == only_digits(s@.subrange(from as int, to as int)),
{
    let mut i: usize = from;
    while i < to
        invariant
            from <= i <= to <= s@.len(),
            forall|j: int| from <= j < i ==> is_digit(s@[j]),
        decreases to - i,
    {
        if !is_digit_char(s[i]) {
            proof {
                assert(s@.subrange(from as int, to as int)[i - from] == s@[i as int]);
            }
            return false;
        }
        i = i + 1;
    }
    true
}

/// The digits of a numeral, least significant first, stand for its value.
proof fn lemma_reversed(s: Seq<char>, ds: Seq<u8>)
    requires
        only_digits(s),
        ds.len() == s.len(),
        forall|i: int| 0 <= i < s.len() ==> ds[i] as int == s[s.len() - 1 - i] as int - 48,
    ensures
        digits_value(ds) == numeral_value(s),
    decreases s.len(),
{
    if s.len() > 0 {
        lemma_value_front(ds);
        lemma_reversed(s.drop_last(), ds.drop_first());
        assert(ds[0] as int == s.last() as int - 48);
    }
}

/// The value of an exponent's digits.
fn exponent_of(s: &Vec<char>, from: usize, to: usize) -> (r: u32)
    requires
        from <= to <= s@.len(),
        only_digits(s@.subrange(from as int, to as int)),
    ensures
        r == exponent_value(s@.subrange(from as int, to as int)),
        r < 0xa0000,
{
    let ghost w = s@.subrange(from as int, to as int);
    let mut v: u32 = 0;
    let mut i: usize = from;
    while i < to
        invariant
            from <= i <= to <= s@.len(),
            w == s@.subrange(from as int, to as int),
            only_digits(w),
            v == exponent_value(w.take(i - from)),
            v < 0xa0000,
        decreases to - i,
    {
        let ghost j = i - from;
        proof {
            assert(w.take(j + 1).drop_last() =~= w.take(j));
            assert(w.take(j + 1).last() == s@[i as int]);
            assert(is_digit(w[j]));
        }
        if v < 0x10000 {
            v = 10 * v + (s[i] as u32 - 48);
        }
        i = i + 1;
    }
    proof {
        assert(w.take(to - from) =~= w);
    }
    v
}

/// The magnitude of `digits[.digits]` scaled by a power of ten.
fn mantissa_of(s: &Vec<char>, from: usize, to: usize, e: i32) -> (r: Option<u64>)
    requires
        from <= to <= s@.len(),
        -0xa0000 < e < 0xa0000,
    ensures
        match r {
            Some(m) => read_mantissa(s@.subrange(from as int, to as int), e as int) == Some(m as nat) && m <= INFINITE,
            None => read_mantissa(s@.subrange(from as int, to as int), e as int) is None,
        },
{
    let ghost w = s@.subrange(from as int, to as int);
    let dot: usize = find_place(s, '.', '.', from, to);
    let rest: usize = if dot < to {
        dot + 1
    } else {
        to
    };
    let ghost whole = w.take(dot - from);
    let ghost frac = if dot < to {
        w.skip(dot - from + 1)
    } else {
        Seq::empty()
    };
    proof {
        assert(whole =~= s@.subrange(from as int, dot as int));
        assert(frac =~= s@.subrange(rest as int, to as int));
    }
    if !digits_only(s, from, dot) || !digits_only(s, rest, to) || (dot == from && rest == to) {
        return None;
    }
    let mut ds: Vec<u8> = Vec::new();
    let ghost all = whole + frac;
    let mut i: usize = to;
    while i > rest
        invariant
            rest <= i <= to <= s@.len(),
            frac == s@.subrange(rest as int, to as int),
            only_digits(frac),
            ds@.len() == to - i,
            forall|j: int| 0 <= j < ds@.len() ==> ds@[j] as int == #[trigger] frac[frac.len() - 1 - j] as int - 48,
        decreases i,
    {
        proof {
            assert(is_digit(frac[i - 1 - rest]));
        }
        let d: u8 = (s[i - 1] as u32 - 48) as u8;
        ds.push(d);
        i = i - 1;
    }
    let mut k: usize = dot;
    proof {
        assert forall|j: int| 0 <= j < ds@.len() implies ds@[j] as int == #[trigger] all[all.len() - 1 - j] as int - 48 by {
            assert(all[all.len() - 1 - j] == frac[frac.len() - 1 - j]);
        }
    }
    while k > from
        invariant
            from <= k <= dot <= s@.len(),
            whole == s@.subrange(from as int, dot as int),
            only_digits(whole),
            all == whole + frac,
            ds@.len() == frac.len() + (dot - k),
            forall|j: int| 0 <= j < ds@.len() ==> ds@[j] as int == #[trigger] all[all.len() - 1 - j] as int - 48,
        decreases k,
    {
        proof {
            assert(is_digit(whole[k - 1 - from]));
            assert(all[k - 1 - from] == s@[k - 1]);
        }
        let d: u8 = (s[k - 1] as u32 - 48) as u8;
        ds.push(d);
        k = k - 1;
    }
    proof {
        assert(only_digits(all));
        lemma_reversed(all, ds@);
        assert(all_digits(ds@)) by {
            assert forall|j: int| 0 <= j < ds@.len() implies ds@[j] < 10 by {
                assert(is_digit(all[all.len() - 1 - j]));
            }
        }
    }
    let scaled: i128 = e as i128 - (to - rest) as i128;
    Some(round_decimal(ds, scaled))
}

/// The magnitude of an unsigned numeral with an optional exponent.
fn unsigned_of(s: &Vec<char>, from: usize) -> (r: Option<u64>)
    requires
        from <= s@.len(),
    ensures
        match r {
            Some(m) => read_unsigned(s@.skip(from as int)) == Some(m as nat) && m <= INFINITE,
            None => read_unsigned(s@.skip(from as int)) is None,
        },
{
    let end: usize = s.len();
    let ghost w = s@.skip(from as int);
    proof {
        assert(s@.subrange(from as int, end as int) =~= w);
    }
    let at: usize = find_place(s, 'e', 'E', from, end);
    if at == end {
        return mantissa_of(s, from, end, 0);
    }
    let mut first: usize = at + 1;
    let neg = first < end && s[first] == '-';
    let ghost tail = w.skip(at - from + 1);
    proof {
        assert(tail =~= s@.subrange(at + 1, end as int));
    }
    if first < end && (s[first] == '-' || s[first] == '+') {
        first = first + 1;
        proof {
            assert(tail.skip(1) =~= s@.subrange(first as int, end as int));
        }
    }
    if first == end || !digits_only(s, first, end) {
        return None;
    }
    let v: u32 = exponent_of(s, first, end);
    proof {
        assert(w.take(at - from) =~= s@.subrange(from as int, at as int));
    }
    mantissa_of(
        s,
        from,
        at,
        if neg {
            -(v as i32)
        } else {
            v as i32
        },
    )
}

/// Whether the characters from `from` on spell a lower-case word, whatever
/// their case.
fn spells(s: &Vec<char>, from: usize, word: &Vec<char>) -> (r: bool)
    requires
        from <= s@.len(),
    ensures
        r == same_word(s@.skip(from as int), word@),
{
    if s.len() - from != word.len() {
        return false;
    }
    let mut i: usize = 0;
    while i < word.len()
        invariant
            from <= s@.len(),
            i <= word@.len(),
            s@.len() <= usize::MAX,
            s@.len() - from == word@.len(),
            forall|j: int| 0 <= j < i ==> ascii_lower(s@.skip(from as int)[j]) == word@[j],
        decreases word@.len() - i,
    {
        if lower_ascii(s[from + i]) != word[i] {
            proof {
                assert(s@.skip(from as int)[i as int] == s@[from + i]);
            }
            return false;
        }
        i = i + 1;
    }
    true
}

/// An ASCII letter without its case; any other character as it is.
pub fn lower_ascii(c: char) -> (r: char)
    ensures
        r == ascii_lower(c),
{
    if 'A' <= c && c <= 'Z' {
        (c as u8 + 32) as char
    } else {
        c
    }
}

impl Num {
    /// Reads a decimal number: an optional sign, digits with an optional
    /// point, and an optional exponent; or an infinity or not-a-number by
    /// name.
    pub fn parse(s: &str) -> (r: Option<Num>)
        ensures
            r == read_number(s@),
    {
        let c: Vec<char> = crate::chars::chars_of(s);
        let neg = c.len() > 0 && c[0] == '-';
        let from: usize = if c.len() > 0 && (c[0] == '-' || c[0] == '+') {
            1
        } else {
            0
        };
        proof {
            assert(c@.skip(0) =~= c@);
        }
        let inf: Vec<char> = vec!['i', 'n', 'f'];
        let infinity: Vec<char> = vec!['i', 'n', 'f', 'i', 'n', 'i', 't', 'y'];
        let nan: Vec<char> = vec!['n', 'a', 'n'];
        proof {
            assert(inf@ =~= seq!['i', 'n', 'f']);
            assert(infinity@ =~= seq!['i', 'n', 'f', 'i', 'n', 'i', 't', 'y']);
            assert(nan@ =~= seq!['n', 'a', 'n']);
        }
        if spells(&c, from, &inf) || spells(&c, from, &infinity) {
            return Some(Num::with_sign(neg, INFINITE));
        }
        if spells(&c, from, &nan) {
            return Some(Num { bits: NAN_BITS });
        }
        match unsigned_of(&c, from) {
            Some(m) => Some(Num::with_sign(neg, m)),
            None => None,
        }
    }
}

} // verus!
