//! Text layout helpers shared across the UI: byte and duration formatting, the
//! traffic-light color mapping, and the padding used for column alignment.

use crate::chars::{chars_of, lemma_numeral_digits, numeral, numeral_of, push_repeated, repeated, string_of, two_digits, two_digits_of};
use crate::num::decimal::{point, ten};
use crate::num::round::half_even;
use crate::num::value::{lemma_nearest_exact, lemma_of_value, lemma_order_value, lemma_value_units};
use crate::num::{scale, significand, units_of, Num, BINADE};
use crate::style::{
    escape_state, lemma_plain_join, lemma_strip_fresh, lemma_strip_parts, lemma_strip_plain,
    plain_line, stripped, unit_cells, visible, width, Escape, GREEN, RED, YELLOW,
};
use vstd::arithmetic::power2::{lemma2_to64, lemma_pow2_adds, lemma_pow2_pos, lemma_pow2_strictly_increases, pow2};
use vstd::prelude::*;
use vstd::string::StringExecFns;

verus! {

/// The breathing room between side-by-side panels and columns.
pub const LAYOUT_GAP: usize = 3;

/// The glyph of a filled bar cell.
pub const BAR_FILLED: &'static str = "▐";

/// The glyph of an empty bar cell.
pub const BAR_EMPTY: &'static str = "░";

/// The number 1024.
pub open spec fn unit() -> Num {
    Num::of(1024)
}

/// A size divided by 1024 until it is below 1024 or the largest unit is
/// reached, with the letter of its unit.
pub open spec fn scaled_size(size: Num, i: nat) -> (Num, nat)
    decreases 5 - i,
{
    if i < 5 && !size.less(unit()) && !size.nan() {
        scaled_size(size.quotient(unit()), i + 1)
    } else {
        (size, i)
    }
}

/// The letter of a binary unit.
pub open spec fn unit_letter(i: nat) -> char {
    if i == 0 {
        'B'
    } else if i == 1 {
        'K'
    } else if i == 2 {
        'M'
    } else if i == 3 {
        'G'
    } else if i == 4 {
        'T'
    } else {
        'P'
    }
}

/// A byte count with a binary-prefix unit.
pub open spec fn bytes_text(b: nat) -> Seq<char> {
    if b < 1024 {
        numeral(b) + seq!['B']
    } else {
        let (size, i) = scaled_size(Num::of(b), 0);
        size.fixed(1) + seq![unit_letter(i)]
    }
}

/// The traffic-light color of a 0-100 utilisation figure.
pub open spec fn load_light(percent: Num) -> u8 {
    if !percent.nan() && !percent.less(Num::of(85)) {
        RED
    } else if !percent.nan() && !percent.less(Num::of(60)) {
        YELLOW
    } else {
        GREEN
    }
}

/// The text cut or padded to exactly `w` characters.
pub open spec fn fitted(s: Seq<char>, w: nat) -> Seq<char> {
    if s.len() >= w {
        s.take(w as int)
    } else {
        s + repeated(' ', (w - s.len()) as nat)
    }
}

/// The text right-aligned in a field of `w` characters.
pub open spec fn right_aligned(s: Seq<char>, w: nat) -> Seq<char> {
    if s.len() < w {
        repeated(' ', (w - s.len()) as nat) + s
    } else {
        s
    }
}

/// The text left-aligned in a field of `w` characters.
pub open spec fn left_aligned(s: Seq<char>, w: nat) -> Seq<char> {
    if s.len() < w {
        s + repeated(' ', (w - s.len()) as nat)
    } else {
        s
    }
}

/// The text padded to `w` display cells.
pub open spec fn padded(line: Seq<char>, w: nat) -> Seq<char> {
    if visible(line) < w {
        line + repeated(' ', (w - visible(line)) as nat)
    } else {
        line
    }
}

/// The text cut to at most `w` characters.
pub open spec fn cut(s: Seq<char>, w: nat) -> Seq<char> {
    if s.len() > w {
        s.take(w as int)
    } else {
        s
    }
}

/// A duration: `3d 04:26` from a day on, else `04:26:09`.
pub open spec fn uptime_text(secs: nat) -> Seq<char> {
    let days = secs / 86400;
    let h = secs % 86400 / 3600;
    let m = secs % 3600 / 60;
    if days > 0 {
        numeral(days) + seq!['d', ' '] + two_digits(h) + seq![':'] + two_digits(m)
    } else {
        two_digits(h) + seq![':'] + two_digits(m) + seq![':'] + two_digits(secs % 60)
    }
}

/// Renders a byte count with a binary-prefix unit (K, M, G, T, P).
pub fn format_bytes(b: u64) -> (r: String)
    ensures
        r@ == bytes_text(b as nat),
{
    if b < 1024 {
        let mut out = numeral_of(b);
        out.push('B');
        proof {
            assert(out@ =~= bytes_text(b as nat));
        }
        return out;
    }
    let mut size = Num::from_u64(b);
    let k = Num::from_u64(1024);
    let mut i: usize = 0;
    while i < 5 && !size.lt(k) && !size.is_nan()
        invariant
            i <= 5,
            k == unit(),
            scaled_size(Num::of(b as nat), 0) == scaled_size(size, i as nat),
        decreases 5 - i,
    {
        size = size.over(k);
        i = i + 1;
    }
    let mut out = size.to_fixed(1);
    let letter = if i == 0 {
        'B'
    } else if i == 1 {
        'K'
    } else if i == 2 {
        'M'
    } else if i == 3 {
        'G'
    } else if i == 4 {
        'T'
    } else {
        'P'
    };
    out.push(letter);
    proof {
        assert(out@ =~= bytes_text(b as nat));
    }
    out
}

/// Maps a 0-100 utilisation figure to a traffic-light color index.
pub fn load_color(percent: Num) -> (r: u8)
    ensures
        r == load_light(percent),
{
    if percent.is_nan() {
        GREEN
    } else if !percent.lt(Num::from_u64(85)) {
        RED
    } else if !percent.lt(Num::from_u64(60)) {
        YELLOW
    } else {
        GREEN
    }
}

/// A percentage held between 0 and 100.
pub open spec fn percent_bounded(p: Num) -> Num {
    p.bounded(Num::spec_zero(), Num::of(100))
}

/// Bounds a percentage to [0,100].
pub fn clamp_percent(p: Num) -> (r: Num)
    ensures
        r == percent_bounded(p),
{
    p.clamped(Num::zero(), Num::from_u64(100))
}

pub fn spaces(n: usize) -> (r: String)
    ensures
        r@ == repeated(' ', n as nat),
{
    let mut out = String::new();
    push_repeated(&mut out, ' ', n);
    proof {
        assert(out@ =~= repeated(' ', n as nat));
    }
    out
}

/// `n` copies of a text one after the other.
pub open spec fn tiled(s: Seq<char>, n: nat) -> Seq<char>
    decreases n,
{
    if n == 0 {
        seq![]
    } else {
        tiled(s, (n - 1) as nat) + s
    }
}

/// Copies of a one-character text are copies of its character.
pub proof fn lemma_tiled_char(s: Seq<char>, n: nat)
    requires
        s.len() == 1,
    ensures
        tiled(s, n) == repeated(s[0], n),
    decreases n,
{
    if n > 0 {
        lemma_tiled_char(s, (n - 1) as nat);
    }
    assert(tiled(s, n) =~= repeated(s[0], n));
}

/// Numerals are made of one-cell characters.
pub proof fn lemma_fixed_cells(x: Num, places: nat)
    requires
        places <= 2,
    ensures
        unit_cells(x.fixed(places)),
{
    let q = half_even(x.units() * ten(places), pow2(1074));
    lemma_numeral_digits(q);
    lemma_numeral_digits(q / 10);
    lemma_numeral_digits(q / 100);
    assert(unit_cells(point(q, places)));
}

/// Bars are made of one-cell characters.
pub proof fn lemma_bar_cells(n: nat)
    ensures
        unit_cells(tiled(BAR_FILLED@, n)),
        tiled(BAR_FILLED@, n).len() == n,
        unit_cells(tiled(BAR_EMPTY@, n)),
        tiled(BAR_EMPTY@, n).len() == n,
{
    reveal_strlit("▐");
    reveal_strlit("░");
    lemma_tiled_char(BAR_FILLED@, n);
    lemma_tiled_char(BAR_EMPTY@, n);
}

/// `n` copies of a text one after the other.
pub fn repeat(s: &str, n: usize) -> (r: String)
    ensures
        r@ == tiled(s@, n as nat),
{
    let mut out = String::new();
    let mut i: usize = 0;
    while i < n
        invariant
            i <= n,
            out@ =~= tiled(s@, i as nat),
        decreases n - i,
    {
        out.append(s);
        i = i + 1;
    }
    out
}

/// Fits `s` to exactly `w` characters.
pub fn pad_truncate(s: &str, w: usize) -> (r: String)
    ensures
        r@ == fitted(s@, w as nat),
        r@.len() == w,
{
    let c: Vec<char> = chars_of(s);
    if c.len() >= w {
        let out = string_of(&c, 0, w);
        proof {
            assert(out@ =~= fitted(s@, w as nat));
        }
        out
    } else {
        let mut out = s.to_owned();
        push_repeated(&mut out, ' ', w - c.len());
        out
    }
}

/// Right-aligns `s` in a field of `w` characters.
pub fn left_pad(s: &str, w: usize) -> (r: String)
    ensures
        r@ == right_aligned(s@, w as nat),
{
    let n: usize = chars_of(s).len();
    if n < w {
        let mut out = spaces(w - n);
        out.append(s);
        out
    } else {
        s.to_owned()
    }
}

/// Left-aligns `s` in a field of `w` characters.
pub fn right_pad(s: &str, w: usize) -> (r: String)
    ensures
        r@ == left_aligned(s@, w as nat),
{
    let n: usize = chars_of(s).len();
    let mut out = s.to_owned();
    if n < w {
        push_repeated(&mut out, ' ', w - n);
    }
    out
}

/// Spaces show as they are and take one cell each.
pub proof fn lemma_spaces(n: nat)
    ensures
        unit_cells(repeated(' ', n)),
        stripped(repeated(' ', n)) == repeated(' ', n),
        escape_state(repeated(' ', n)) == Escape::Text,
{
    lemma_strip_plain(repeated(' ', n));
}

/// Pads a styled line to `w` display cells; it never truncates. A line that
/// does not break off inside an escape sequence comes out at least `w` cells
/// wide, and exactly `w` where it was no wider.
pub fn pad_line(line: &str, w: usize) -> (r: String)
    ensures
        r@ == padded(line@, w as nat),
        escape_state(line@) == Escape::Text ==> escape_state(r@) == Escape::Text && visible(r@) == if visible(line@) < w {
            w as nat
        } else {
            visible(line@)
        },
        plain_line(line@, stripped(line@).len()) ==> plain_line(
            r@,
            if stripped(line@).len() < w {
                w as nat
            } else {
                stripped(line@).len()
            },
        ),
{
    let cur: usize = width(line);
    if cur < w {
        let mut out = line.to_owned();
        push_repeated(&mut out, ' ', w - cur);
        proof {
            let tail = repeated(' ', (w - cur) as nat);
            if escape_state(line@) == Escape::Text {
                lemma_spaces((w - cur) as nat);
                lemma_strip_parts(line@, tail);
                lemma_strip_fresh(tail);
                assert(stripped(out@) == stripped(line@) + tail);
                if unit_cells(stripped(line@)) {
                    lemma_plain_join(line@, stripped(line@).len(), tail, tail.len());
                }
            }
        }
        out
    } else {
        line.to_owned()
    }
}

/// Clips `s` to at most `w` characters.
pub fn truncate_runes(s: &str, w: usize) -> (r: String)
    ensures
        r@ == cut(s@, w as nat),
        r@.len() <= w,
{
    let c: Vec<char> = chars_of(s);
    if c.len() > w {
        let out = string_of(&c, 0, w);
        proof {
            assert(out@ =~= cut(s@, w as nat));
        }
        out
    } else {
        s.to_owned()
    }
}

/// Renders a duration htop-style: `3d 04:26` or `04:26:09`.
pub fn format_uptime(secs: u64) -> (r: String)
    ensures
        r@ == uptime_text(secs as nat),
{
    let days: u64 = secs / 86400;
    let h: u64 = secs % 86400 / 3600;
    let m: u64 = secs % 3600 / 60;
    if days > 0 {
        let mut out = numeral_of(days);
        out.push('d');
        out.push(' ');
        out.append(two_digits_of(h).as_str());
        out.push(':');
        out.append(two_digits_of(m).as_str());
        proof {
            assert(out@ =~= uptime_text(secs as nat));
        }
        out
    } else {
        let mut out = two_digits_of(h);
        out.push(':');
        out.append(two_digits_of(m).as_str());
        out.push(':');
        out.append(two_digits_of(secs % 60).as_str());
        proof {
            assert(out@ =~= uptime_text(secs as nat));
        }
        out
    }
}

/// The traffic light: green below 60 percent, yellow from there, red from 85
/// on.
pub proof fn lemma_lights(percent: Num)
    requires
        percent.finite(),
    ensures
        percent.value() < 60 as real ==> load_light(percent) == 2,
        percent.value() >= 60 as real && percent.value() < 85 as real ==> load_light(percent) == 3,
        percent.value() >= 85 as real ==> load_light(percent) == 1,
{
    lemma_of_value(60);
    lemma_of_value(85);
    lemma_order_value(percent, Num::of(60));
    lemma_order_value(percent, Num::of(85));
}

/// A percentage is held between 0 and 100, and one that lies there is kept.
pub proof fn lemma_percent_held(p: Num)
    requires
        p.finite(),
    ensures
        percent_bounded(p).finite(),
        p.value() < 0 as real ==> percent_bounded(p).value() == 0 as real,
        p.value() >= 0 as real && p.value() <= 100 as real ==> percent_bounded(p) == p,
        p.value() > 100 as real ==> percent_bounded(p).value() == 100 as real,
{
    lemma_of_value(100);
    lemma_value_units(Num::spec_zero());
    lemma_order_value(p, Num::spec_zero());
    lemma_order_value(Num::of(100), p);
    lemma_order_value(Num::of(100), Num::spec_zero());
}

/// A duration is told by its days, hours and minutes, or by its hours, minutes
/// and seconds where it is less than a day.
pub proof fn lemma_uptime_parts(d: nat, h: nat, m: nat, s: nat)
    requires
        h < 24,
        m < 60,
        s < 60,
    ensures
        uptime_text(d * 86400 + h * 3600 + m * 60 + s) == if d > 0 {
            numeral(d) + seq!['d', ' '] + two_digits(h) + seq![':'] + two_digits(m)
        } else {
            two_digits(h) + seq![':'] + two_digits(m) + seq![':'] + two_digits(s)
        },
{
    let secs = d * 86400 + h * 3600 + m * 60 + s;
    assert(secs / 86400 == d);
    assert(secs % 86400 == h * 3600 + m * 60 + s);
    assert(secs % 86400 / 3600 == h);
    assert(secs % 3600 == m * 60 + s);
    assert(secs % 3600 / 60 == m);
    assert(secs % 60 == s);
}

/// A number that is not next to nothing can be divided by 1024 exactly.
proof fn lemma_quotient_by_unit(x: Num)
    requires
        x.finite(),
        !x.negative(),
        x.value() >= 1 as real,
    ensures
        x.quotient(unit()).finite(),
        !x.quotient(unit()).negative(),
        x.quotient(unit()).value() * 1024 as real == x.value(),
{
    lemma_of_value(1024);
    lemma_value_units(x);
    lemma_value_units(unit());
    let p = pow2(1074);
    lemma_pow2_pos(1074);
    let m = x.mag();
    assert(x.units() >= p) by (nonlinear_arith)
        requires
            x.value() * p as real == x.units() as real,
            x.value() >= 1 as real,
            p > 0,
    ;
    let k = (m / BINADE as nat) as int;
    assert(k >= 11) by {
        if k < 11 {
            assert(significand(m) <= 0x20_0000_0000_0000);
            assert(scale(m) <= 10);
            lemma2_to64();
            if scale(m) < 10 {
                lemma_pow2_strictly_increases(scale(m), 10);
            }
            assert(significand(m) * pow2(scale(m)) <= 0x20_0000_0000_0000 * 1024) by (nonlinear_arith)
                requires
                    significand(m) <= 0x20_0000_0000_0000,
                    pow2(scale(m)) <= 1024,
            ;
            lemma_pow2_strictly_increases(64, 1074);
        }
    }
    let q = (m - 10 * BINADE) as nat;
    assert(q / BINADE as nat == k - 10);
    assert(q % BINADE as nat == m % BINADE as nat);
    assert(significand(q) == significand(m));
    assert(scale(m) == scale(q) + 10);
    lemma_pow2_adds(scale(q), 10);
    lemma2_to64();
    assert(x.units() == units_of(q) * 1024) by (nonlinear_arith)
        requires
            x.units() == significand(m) * pow2(scale(m)),
            units_of(q) == significand(m) * pow2(scale(q)),
            pow2(scale(m)) == pow2(scale(q)) * 1024,
    ;
    let d = 1024 * p;
    assert(unit().units() == d);
    assert(x.units() * p == units_of(q) * d) by (nonlinear_arith)
        requires
            x.units() == units_of(q) * 1024,
            d == 1024 * p,
    ;
    lemma_nearest_exact(q, d);
    let r = x.quotient(unit());
    assert(unit().mag() > 0);
    assert(r.mag() == q);
    lemma_value_units(r);
    assert(r.value() * 1024 as real == x.value()) by (nonlinear_arith)
        requires
            r.value() * p as real == units_of(q) as real,
            x.value() * p as real == x.units() as real,
            x.units() == units_of(q) * 1024,
            p > 0,
    ;
}

/// 1024 to a power.
pub open spec fn unit_size(i: nat) -> nat
    decreases i,
{
    if i == 0 {
        1
    } else {
        1024 * unit_size((i - 1) as nat)
    }
}

proof fn lemma_scaled(x: Num, i: nat)
    requires
        i <= 5,
        x.finite(),
        !x.negative(),
        x.value() >= 1 as real,
    ensures
        ({
            let (y, j) = scaled_size(x, i);
            &&& i <= j <= 5
            &&& y.finite()
            &&& y.value() * unit_size((j - i) as nat) as real == x.value()
            &&& y.value() >= 1 as real
            &&& j == 5 || y.value() < 1024 as real
        }),
    decreases 5 - i,
{
    lemma_of_value(1024);
    lemma_order_value(x, unit());
    if i < 5 && !x.less(unit()) {
        lemma_quotient_by_unit(x);
        let q = x.quotient(unit());
        assert(q.value() >= 1 as real);
        lemma_scaled(q, i + 1);
        let (y, j) = scaled_size(x, i);
        assert(scaled_size(x, i) == scaled_size(q, i + 1));
        let u = unit_size((j - i - 1) as nat) as real;
        assert(unit_size((j - i) as nat) == 1024 * unit_size((j - i - 1) as nat));
        assert(y.value() * (1024 as real * u) == x.value()) by (nonlinear_arith)
            requires
                y.value() * u == q.value(),
                q.value() * 1024 as real == x.value(),
        ;
    } else {
        assert(unit_size(0) as real == 1 as real);
        assert(x.value() * 1 as real == x.value());
    }
}

/// A count of bytes is written in the largest of the units B, K, M, G, T and P
/// that does not exceed it, with one digit behind the point from K on: a count
/// of `b` bytes from `1024^i` on, and below `1024^(i + 1)`, as `b / 1024^i`.
pub proof fn lemma_bytes_in_units(b: nat, i: nat) -> (x: Num)
    requires
        1 <= i <= 5,
        unit_size(i) <= b < unit_size(i + 1),
        b <= 0x20_0000_0000_0000,
    ensures
        x.finite(),
        x.value() * unit_size(i) as real == b as real,
        bytes_text(b) == x.fixed(1).push(seq!['B', 'K', 'M', 'G', 'T', 'P'][i as int]),
{
    reveal_with_fuel(unit_size, 7);
    lemma_of_value(b);
    lemma_scaled(Num::of(b), 0);
    let (y, j) = scaled_size(Num::of(b), 0);
    let v = y.value();
    if j < i {
        assert(unit_size(j) * 1024 <= unit_size(i));
        assert(unit_size(j) as real * 1024 as real > v * unit_size(j) as real) by (nonlinear_arith)
            requires
                v < 1024 as real,
                unit_size(j) >= 1,
        ;
        assert(false);
    }
    if j > i {
        assert(unit_size(i + 1) <= unit_size(j));
        assert(v * unit_size(j) as real >= unit_size(j) as real) by (nonlinear_arith)
            requires
                v >= 1 as real,
                unit_size(j) >= 1,
        ;
        assert(false);
    }
    assert(bytes_text(b) =~= y.fixed(1).push(seq!['B', 'K', 'M', 'G', 'T', 'P'][i as int]));
    y
}

} // verus!
