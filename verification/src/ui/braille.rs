//! Braille sparkline rendering: one solid-color lane per series, each in its
//! own horizontal band, falling back to a shared canvas when the panel is too
//! short to give each series a usable lane.

use crate::chars::{repeated, string_of, texts};
use crate::num::value::{
    grain, lemma_difference_value, lemma_of_difference, lemma_of_value, lemma_order_value, lemma_product_value, lemma_share_value,
    lemma_sign_of_value, lemma_speck, lemma_truncated_value, lemma_value_units, lemma_vast, near, size, speck, vast,
};
use crate::num::Num;
use crate::style::{
    dim, dimmed, lemma_plain_join, lemma_plain_render, lemma_plain_text, plain_line, stripped,
    unit_cell, unit_cells, visible, width, Style,
};
use crate::text::{cut, pad_line, padded, spaces, truncate_runes};
use vstd::prelude::*;
use vstd::string::StringExecFns;

verus! {

/// The samples of some series.
pub open spec fn samples(v: Seq<&Vec<Num>>) -> Seq<Seq<Num>> {
    Seq::new(v.len(), |i: int| v[i]@)
}

/// A canvas of `w` by `h` cells, 2 by 4 dots each, whose values reach from 0 at
/// the bottom to `max` at the top.
pub struct Canvas {
    pub w: nat,
    pub h: nat,
    pub max: Num,
}

impl Canvas {
    /// The dot row of a value, counted from the top.
    pub open spec fn row_of(self, v: Num) -> int {
        let b = v.bounded(Num::spec_zero(), self.max);
        Num::of(1).difference(b.quotient(self.max)).product(
            Num::of(4 * self.h).difference(Num::of(1)),
        ).truncated_signed()
    }

    /// Which sample stands in dot column `x`: the newest is at the right edge.
    pub open spec fn place(self, len: nat, x: int) -> int {
        len - 2 * self.w + x
    }

    /// Whether a series has a sample in dot column `x`.
    pub open spec fn drawn(self, data: Seq<Num>, x: int) -> bool {
        0 <= x < 2 * self.w && self.place(data.len(), x) >= 0
    }

    /// The dot row of the sample in dot column `x`.
    pub open spec fn level(self, data: Seq<Num>, x: int) -> int {
        self.row_of(data[self.place(data.len(), x)])
    }

    /// What a canvas shows of a series: its trailing samples, as many as there
    /// are dot columns, held to the scale.
    pub open spec fn seen(self, data: Seq<Num>) -> Seq<Num> {
        let n = if data.len() > 2 * self.w {
            2 * self.w
        } else {
            data.len()
        };
        Seq::new(n, |i: int| data[data.len() - n + i].bounded(Num::spec_zero(), self.max))
    }

    /// Whether a series has a dot there: its sample's own, or one that joins
    /// it to the sample on its left.
    pub open spec fn dot(self, data: Seq<Num>, x: int, y: int) -> bool {
        self.drawn(data, x) && 0 <= y < 4 * self.h && {
            let here = self.level(data, x);
            ||| y == here
            ||| self.drawn(data, x - 1) && ({
                let left = self.level(data, x - 1);
                (here < y < left) || (left < y < here)
            })
        }
    }

    /// Whether a series has one of the first `k` dots of a cell.
    pub open spec fn touches(self, data: Seq<Num>, cx: int, cy: int, k: nat) -> bool
        decreases k,
    {
        k > 0 && (self.touches(data, cx, cy, (k - 1) as nat) || self.dot(data, 2 * cx + (k - 1) % 2, 4 * cy + (k - 1) / 2))
    }

    /// The series among the first `n` that have a dot in a cell.
    pub open spec fn contributors(self, series: Seq<Seq<Num>>, cx: int, cy: int, n: nat) -> Seq<int>
        decreases n,
    {
        if n == 0 {
            seq![]
        } else {
            let before = self.contributors(series, cx, cy, (n - 1) as nat);
            if self.touches(series[n - 1], cx, cy, 8) {
                before.push(n - 1)
            } else {
                before
            }
        }
    }

    /// A cell's color: 0 without a dot, else the number of its series, counted
    /// from 1. Where several series share a cell they take turns by column.
    pub open spec fn hue(self, series: Seq<Seq<Num>>, cx: int, cy: int) -> int {
        let c = self.contributors(series, cx, cy, series.len());
        if c.len() == 0 {
            0
        } else {
            c[cx % c.len() as int] + 1
        }
    }

    /// Whether any of the first `n` series has a dot there.
    pub open spec fn lit(self, series: Seq<Seq<Num>>, x: int, y: int, n: nat) -> bool
        decreases n,
    {
        n > 0 && (self.lit(series, x, y, (n - 1) as nat) || self.dot(series[n - 1], x, y))
    }

    /// The pattern bits of the first `k` dots of a cell.
    pub open spec fn bits(self, series: Seq<Seq<Num>>, cx: int, cy: int, k: nat) -> nat
        decreases k,
    {
        if k == 0 {
            0
        } else {
            self.bits(series, cx, cy, (k - 1) as nat) + if self.lit(
                series,
                2 * cx + (k - 1) % 2,
                4 * cy + (k - 1) / 2,
                series.len(),
            ) {
                dot_bit(k - 1)
            } else {
                0
            }
        }
    }

    /// A cell's character.
    pub open spec fn glyph(self, series: Seq<Seq<Num>>, cx: int, cy: int) -> char {
        braille_char(self.bits(series, cx, cy, 8))
    }

    /// The colors of a row of cells.
    pub open spec fn hues(self, series: Seq<Seq<Num>>, cy: int) -> Seq<int> {
        Seq::new(self.w, |cx: int| self.hue(series, cx, cy))
    }

    /// The characters of a row of cells.
    pub open spec fn glyphs(self, series: Seq<Seq<Num>>, cy: int) -> Seq<char> {
        Seq::new(self.w, |cx: int| self.glyph(series, cx, cy))
    }

    /// A row of cells as a styled line.
    pub open spec fn line(self, series: Seq<Seq<Num>>, colors: Seq<u8>, cy: int) -> Seq<char> {
        runs(self.hues(series, cy), self.glyphs(series, cy), colors, 0)
    }
}

/// The bit of the `k`-th dot of a cell, counted left to right and top to
/// bottom, in the braille pattern block.
pub open spec fn dot_bit(k: int) -> nat {
    if k == 0 {
        0x01
    } else if k == 1 {
        0x08
    } else if k == 2 {
        0x02
    } else if k == 3 {
        0x10
    } else if k == 4 {
        0x04
    } else if k == 5 {
        0x20
    } else if k == 6 {
        0x40
    } else {
        0x80
    }
}

/// The character of a pattern; a space where it has no dots.
pub open spec fn braille_char(bits: nat) -> char {
    if bits == 0 {
        ' '
    } else {
        (0x2800 + bits) as char
    }
}

/// The end of the run of equal colors that begins at `x`, looked for from `i`.
pub open spec fn run_end(hues: Seq<int>, x: int, i: int) -> int
    decreases hues.len() - i,
{
    if i < hues.len() && hues[i] == hues[x] {
        run_end(hues, x, i + 1)
    } else {
        i
    }
}

/// A run in its color.
pub open spec fn colored(colors: Seq<u8>, hue: int, run: Seq<char>) -> Seq<char> {
    if hue > 0 {
        Style::ink(colors[hue - 1]).rendered(run)
    } else {
        run
    }
}

/// The characters from `x` on, each run of one color styled as a whole.
pub open spec fn runs(hues: Seq<int>, glyphs: Seq<char>, colors: Seq<u8>, x: int) -> Seq<char>
    decreases hues.len() - x,
{
    let e = run_end(hues, x, x + 1);
    if x < 0 || x >= hues.len() || e <= x || e > hues.len() {
        seq![]
    } else {
        colored(colors, hues[x], glyphs.subrange(x, e)) + runs(hues, glyphs, colors, e)
    }
}

proof fn lemma_run_end(hues: Seq<int>, x: int, i: int)
    requires
        0 <= x < i <= hues.len(),
    ensures
        i <= run_end(hues, x, i) <= hues.len(),
    decreases hues.len() - i,
{
    if i < hues.len() && hues[i] == hues[x] {
        lemma_run_end(hues, x, i + 1);
    }
}

/// A row of one-cell characters comes out as wide as it has cells.
proof fn lemma_runs_plain(hues: Seq<int>, glyphs: Seq<char>, colors: Seq<u8>, x: int)
    requires
        0 <= x <= hues.len(),
        glyphs.len() == hues.len(),
        unit_cells(glyphs),
    ensures
        plain_line(runs(hues, glyphs, colors, x), (hues.len() - x) as nat),
    decreases hues.len() - x,
{
    if x < hues.len() {
        lemma_run_end(hues, x, x + 1);
        let e = run_end(hues, x, x + 1);
        let piece = glyphs.subrange(x, e);
        assert(unit_cells(piece)) by {
            assert forall|i: int| 0 <= i < piece.len() implies unit_cell(#[trigger] piece[i]) by {
                assert(piece[i] == glyphs[x + i]);
            }
        }
        lemma_plain_text(piece);
        if hues[x] > 0 {
            lemma_plain_render(Style::ink(colors[hues[x] - 1]), piece, piece.len());
        }
        lemma_runs_plain(hues, glyphs, colors, e);
        lemma_plain_join(
            colored(colors, hues[x], piece),
            (e - x) as nat,
            runs(hues, glyphs, colors, e),
            (hues.len() - e) as nat,
        );
    } else {
        lemma_plain_text(seq![]);
        assert(runs(hues, glyphs, colors, x) =~= seq![]);
    }
}

proof fn lemma_bits_bound(c: Canvas, series: Seq<Seq<Num>>, cx: int, cy: int)
    ensures
        c.bits(series, cx, cy, 8) <= 255,
{
    reveal_with_fuel(Canvas::bits, 9);
}

proof fn lemma_dot_seen(c: Canvas, a: Seq<Num>, b: Seq<Num>, x: int, y: int)
    requires
        c.seen(a) == c.seen(b),
    ensures
        c.dot(a, x, y) == c.dot(b, x, y),
{
    let n = c.seen(a).len();
    assert(n == c.seen(b).len());
    assert forall|k: int| c.drawn(a, k) implies c.drawn(b, k) && c.level(a, k) == c.level(b, k) by {
        let i = k - (2 * c.w - n);
        assert(0 <= i < n);
        assert(c.seen(a)[i] == a[c.place(a.len(), k)].bounded(Num::spec_zero(), c.max));
        assert(c.seen(b)[i] == b[c.place(b.len(), k)].bounded(Num::spec_zero(), c.max));
    }
    assert(c.drawn(a, x) == c.drawn(b, x));
    assert(c.drawn(a, x - 1) == c.drawn(b, x - 1));
}

proof fn lemma_touches_seen(c: Canvas, a: Seq<Num>, b: Seq<Num>, cx: int, cy: int, k: nat)
    requires
        c.seen(a) == c.seen(b),
    ensures
        c.touches(a, cx, cy, k) == c.touches(b, cx, cy, k),
    decreases k,
{
    if k > 0 {
        lemma_touches_seen(c, a, b, cx, cy, (k - 1) as nat);
        lemma_dot_seen(c, a, b, 2 * cx + (k - 1) % 2, 4 * cy + (k - 1) / 2);
    }
}

proof fn lemma_contributors_seen(c: Canvas, a: Seq<Seq<Num>>, b: Seq<Seq<Num>>, cx: int, cy: int, n: nat)
    requires
        n <= a.len() == b.len(),
        forall|i: int| 0 <= i < a.len() ==> c.seen(#[trigger] a[i]) == c.seen(b[i]),
    ensures
        c.contributors(a, cx, cy, n) == c.contributors(b, cx, cy, n),
    decreases n,
{
    if n > 0 {
        lemma_contributors_seen(c, a, b, cx, cy, (n - 1) as nat);
        lemma_touches_seen(c, a[n - 1], b[n - 1], cx, cy, 8);
    }
}

proof fn lemma_lit_seen(c: Canvas, a: Seq<Seq<Num>>, b: Seq<Seq<Num>>, x: int, y: int, n: nat)
    requires
        n <= a.len() == b.len(),
        forall|i: int| 0 <= i < a.len() ==> c.seen(#[trigger] a[i]) == c.seen(b[i]),
    ensures
        c.lit(a, x, y, n) == c.lit(b, x, y, n),
    decreases n,
{
    if n > 0 {
        lemma_lit_seen(c, a, b, x, y, (n - 1) as nat);
        lemma_dot_seen(c, a[n - 1], b[n - 1], x, y);
    }
}

proof fn lemma_bits_seen(c: Canvas, a: Seq<Seq<Num>>, b: Seq<Seq<Num>>, cx: int, cy: int, k: nat)
    requires
        a.len() == b.len(),
        forall|i: int| 0 <= i < a.len() ==> c.seen(#[trigger] a[i]) == c.seen(b[i]),
    ensures
        c.bits(a, cx, cy, k) == c.bits(b, cx, cy, k),
    decreases k,
{
    if k > 0 {
        lemma_bits_seen(c, a, b, cx, cy, (k - 1) as nat);
        lemma_lit_seen(c, a, b, 2 * cx + (k - 1) % 2, 4 * cy + (k - 1) / 2, a.len());
    }
}

/// Only what a canvas shows of its series matters: where two lists of series
/// agree in their trailing `2 * w` samples, each held between 0 and `max`,
/// every line comes out the same.
pub proof fn lemma_only_seen_matters(c: Canvas, a: Seq<Seq<Num>>, b: Seq<Seq<Num>>, colors: Seq<u8>, cy: int)
    requires
        a.len() == b.len(),
        forall|i: int| 0 <= i < a.len() ==> c.seen(#[trigger] a[i]) == c.seen(b[i]),
    ensures
        c.line(a, colors, cy) == c.line(b, colors, cy),
{
    assert forall|cx: int| #![auto] c.hue(a, cx, cy) == c.hue(b, cx, cy) && c.glyph(a, cx, cy) == c.glyph(b, cx, cy) by {
        lemma_contributors_seen(c, a, b, cx, cy, a.len());
        lemma_bits_seen(c, a, b, cx, cy, 8);
    }
    assert(c.hues(a, cy) =~= c.hues(b, cy));
    assert(c.glyphs(a, cy) =~= c.glyphs(b, cy));
}

/// A plot can be drawn from its series' trailing `2 * w` samples alone, each
/// held between 0 and `max`: the line is the same.
pub proof fn lemma_trailing_samples(c: Canvas, series: Seq<Seq<Num>>, colors: Seq<u8>, cy: int)
    requires
        c.max.at_least(Num::spec_zero()),
    ensures
        c.line(Seq::new(series.len(), |i: int| c.seen(series[i])), colors, cy) == c.line(series, colors, cy),
{
    let short = Seq::new(series.len(), |i: int| c.seen(series[i]));
    assert forall|i: int| 0 <= i < short.len() implies c.seen(#[trigger] short[i]) == c.seen(series[i]) by {
        assert(c.seen(c.seen(series[i])) =~= c.seen(series[i]));
    }
    lemma_only_seen_matters(c, short, series, colors, cy);
}

/// How far three roundings move a height.
proof fn lemma_height_bound(x: real, q: real, s: real, z: real, n: real)
    requires
        x >= 0 as real,
        x <= 1 as real,
        q >= 0 as real,
        q <= 1 as real,
        n >= 1 as real,
        near(q, x),
        near(s, 1 as real - q),
        s >= 0 as real,
        near(z, s * n),
    ensures
        size(z - (1 as real - x) * n) <= n * (8 as real * grain()),
{
    let e = grain();
    let t = speck();
    lemma_speck();
    assert(t <= e) by (nonlinear_arith)
        requires
            t > 0 as real,
            t * 0x1_0000_0000_0000_0000 as real * 0x1_0000_0000_0000_0000 as real <= 1 as real,
            e == 1 as real / 0x20_0000_0000_0000 as real,
    ;
    assert(size(x) * e <= e) by (nonlinear_arith)
        requires
            size(x) <= 1 as real,
            e > 0 as real,
    ;
    assert(size(1 as real - q) * e <= e) by (nonlinear_arith)
        requires
            size(1 as real - q) <= 1 as real,
            e > 0 as real,
    ;
    let d = s - (1 as real - x);
    assert(size(d) <= 4 as real * e);
    assert(s <= 2 as real);
    assert(s * n >= 0 as real && size(s * n) * e <= 2 as real * (n * e)) by (nonlinear_arith)
        requires
            s >= 0 as real,
            s <= 2 as real,
            n >= 1 as real,
            e > 0 as real,
    ;
    assert(s * n - (1 as real - x) * n == d * n) by (nonlinear_arith)
        requires
            d == s - (1 as real - x),
    ;
    assert(size(d * n) <= 4 as real * (n * e)) by (nonlinear_arith)
        requires
            size(d) <= 4 as real * e,
            n >= 1 as real,
    ;
    assert(t <= n * e) by (nonlinear_arith)
        requires
            t <= e,
            n >= 1 as real,
            e > 0 as real,
    ;
    assert(n * (8 as real * e) == 8 as real * (n * e)) by (nonlinear_arith);
}

/// The height of a dot is in proportion to its sample: a sample `v` out of
/// `max` stands `(1 - v / max) * (4 * h - 1)` dot rows below the top, cut to a
/// whole row, up to what rounding moves. Nothing is at the bottom, half of the
/// scale half way up, the whole scale at the top; samples beyond the scale
/// stand at its ends.
pub proof fn lemma_row_linear(c: Canvas, v: Num)
    requires
        c.max.finite(),
        c.max.value() > 0 as real,
        v.finite(),
        1 <= c.h <= 0x1000_0000_0000,
    ensures
        v.value() >= 0 as real && v.value() <= c.max.value() ==> ({
            let exact = (1 as real - v.value() / c.max.value()) * (4 * c.h - 1) as real;
            let slack = (4 * c.h - 1) as real / 0x4_0000_0000_0000 as real;
            &&& c.row_of(v) as real <= exact + slack
            &&& exact < c.row_of(v) as real + 1 as real + slack
        }),
        v.value() <= 0 as real ==> c.row_of(v) == 4 * c.h - 1,
        v.value() >= c.max.value() ==> c.row_of(v) == 0,
        2 as real * v.value() == c.max.value() ==> c.row_of(v) == (4 * c.h - 1) / 2,
{
    let b = v.bounded(Num::spec_zero(), c.max);
    let n = (4 * c.h - 1) as nat;
    lemma_held(c, v);
    lemma_share_value(b, c.max);
    let q = b.quotient(c.max);
    lemma_of_value(1);
    lemma_of_value(4 * c.h);
    lemma_of_value(n);
    lemma_of_difference(4 * c.h, 1);
    lemma_vast();
    lemma_speck();
    let one = Num::of(1);
    lemma_difference_value(one, q);
    let s = one.difference(q);
    lemma_sign_of_value(s);
    assert(size(1 as real - q.value()) * grain() <= 1 as real) by (nonlinear_arith)
        requires
            q.value() >= 0 as real,
            q.value() <= 1 as real,
            grain() > 0 as real,
            grain() <= 1 as real,
    ;
    assert(s.value() <= 3 as real);
    let m = Num::of(n);
    assert(s.value() * m.value() <= vast()) by (nonlinear_arith)
        requires
            s.value() >= 0 as real,
            s.value() <= 3 as real,
            m.value() >= 0 as real,
            m.value() <= 0x4000_0000_0000 as real,
            vast() >= 0x1_0000_0000_0000_0000 as real,
    ;
    lemma_product_value(s, m);
    let z = s.product(m);
    lemma_value_units(z);
    let x = b.value() / c.max.value();
    assert(x >= 0 as real && x <= 1 as real) by (nonlinear_arith)
        requires
            x == b.value() / c.max.value(),
            b.value() >= 0 as real,
            b.value() <= c.max.value(),
            c.max.value() > 0 as real,
    ;
    let nr = n as real;
    lemma_height_bound(x, q.value(), s.value(), z.value(), nr);
    let e = (1 as real - x) * nr;
    assert(e >= 0 as real && e <= nr) by (nonlinear_arith)
        requires
            e == (1 as real - x) * nr,
            x >= 0 as real,
            x <= 1 as real,
            nr >= 1 as real,
    ;
    let off = nr * (8 as real * grain());
    assert(off == nr / 0x4_0000_0000_0000 as real) by (nonlinear_arith)
        requires
            off == nr * (8 as real * grain()),
            grain() == 1 as real / 0x20_0000_0000_0000 as real,
    ;
    assert(off <= 1 as real / 4 as real) by (nonlinear_arith)
        requires
            off == nr / 0x4_0000_0000_0000 as real,
            nr <= 0x4000_0000_0000 as real,
    ;
    lemma_truncated_value(z);
    assert(c.row_of(v) == z.truncated_signed());
    lemma_row_ends(c, v, b, q, s, m, z, n);
    if 2 as real * v.value() == c.max.value() {
        assert(b == v);
        assert(x == 1 as real / 2 as real) by (nonlinear_arith)
            requires
                x == v.value() / c.max.value(),
                2 as real * v.value() == c.max.value(),
                c.max.value() > 0 as real,
        ;
        assert(e == nr / 2 as real) by (nonlinear_arith)
            requires
                e == (1 as real - x) * nr,
                x == 1 as real / 2 as real,
        ;
        assert(nr == 4 as real * c.h as real - 1 as real);
    }
}

/// What a sample held to the scale stands for.
proof fn lemma_held(c: Canvas, v: Num)
    requires
        c.max.finite(),
        c.max.value() > 0 as real,
        v.finite(),
    ensures
        ({
            let b = v.bounded(Num::spec_zero(), c.max);
            &&& b.finite()
            &&& b.value() >= 0 as real
            &&& b.value() <= c.max.value()
            &&& v.value() >= 0 as real && v.value() <= c.max.value() ==> b == v
            &&& v.value() <= 0 as real ==> b.value() == 0 as real
            &&& v.value() >= c.max.value() ==> b.value() == c.max.value()
        }),
{
    let zero = Num::spec_zero();
    lemma_order_value(v, zero);
    lemma_order_value(c.max, v);
    lemma_order_value(c.max, zero);
    crate::num::value::lemma_value_units(zero);
    crate::num::arith::lemma_zero_units(0);
}

/// The ends of the scale are exact.
proof fn lemma_row_ends(c: Canvas, v: Num, b: Num, q: Num, s: Num, m: Num, z: Num, n: nat)
    requires
        1 <= n <= 0x20_0000_0000_0000,
        c.max.finite(),
        c.max.value() > 0 as real,
        b.finite(),
        b.value() >= 0 as real,
        q.finite(),
        q.value() >= 0 as real,
        s == Num::of(1).difference(q),
        s.finite(),
        !s.negative(),
        m == Num::of(n),
        z == s.product(m),
        b.value() == 0 as real ==> q.value() == 0 as real,
        b.value() == c.max.value() ==> q.value() == 1 as real,
    ensures
        b.value() == 0 as real ==> z.truncated_signed() == n,
        b.value() == c.max.value() ==> z.truncated_signed() == 0,
{
    let p = vstd::arithmetic::power2::pow2(1074);
    vstd::arithmetic::power2::lemma_pow2_pos(1074);
    lemma_of_value(1);
    lemma_of_value(n);
    let one = Num::of(1);
    crate::num::arith::lemma_zero_units(0);
    crate::num::arith::lemma_zero_units(q.mag());
    lemma_value_units(m);
    if b.value() == 0 as real {
        if q.negative() {
            crate::num::value::lemma_opposite_value(q);
            lemma_value_units(q.opposite());
        } else {
            lemma_value_units(q);
        }
        assert(q.mag() == 0);
        crate::num::value::lemma_nearest_exact(one.mag(), 1);
        assert(one.units() * 1 == one.units());
        assert(q.opposite().mag() == 0);
        assert(s.mag() == one.mag());
        crate::num::value::lemma_nearest_exact(m.mag(), p);
        assert(one.units() * m.units() == m.units() * p) by (nonlinear_arith)
            requires
                one.units() == 1 * p,
        ;
        assert(z.mag() == m.mag());
        assert(m.units() / p == n) by {
            vstd::arithmetic::div_mod::lemma_div_multiples_vanish(n as int, p as int);
            assert(n * p == p * n) by (nonlinear_arith);
        }
    }
    if b.value() == c.max.value() {
        lemma_difference_value(one, q);
        assert(s.value() == 0 as real);
        lemma_value_units(s);
        assert(s.mag() == 0);
        assert(0 * m.units() == 0) by (nonlinear_arith);
        crate::num::arith::lemma_nearest_zero(p);
        assert(z.mag() == 0);
        assert(0nat / p == 0) by {
            vstd::arithmetic::div_mod::lemma_div_basics(p as int);
        }
    }
}

/// The dot rows of a series' drawn samples, oldest first.
struct Trace {
    rows: Vec<i64>,
}

impl Trace {
    /// These are the dot rows of a series on a canvas.
    spec fn of(self, c: Canvas, data: Seq<Num>) -> bool {
        &&& self.rows@.len() == if data.len() > 2 * c.w {
            2 * c.w
        } else {
            data.len()
        }
        &&& forall|i: int|
            0 <= i < self.rows@.len() ==> #[trigger] self.rows@[i] == c.row_of(data[data.len() - self.rows@.len() + i])
    }
}

fn trace(data: &Vec<Num>, w: usize, h: usize, max_val: Num) -> (r: Trace)
    requires
        2 * w <= usize::MAX,
        4 * h <= usize::MAX,
    ensures
        r.of(Canvas { w: w as nat, h: h as nat, max: max_val }, data@),
{
    let ghost c = Canvas { w: w as nat, h: h as nat, max: max_val };
    let n: usize = data.len();
    let first: usize = if n > 2 * w {
        n - 2 * w
    } else {
        0
    };
    let span = Num::from_u64((4 * h) as u64).minus(Num::from_u64(1));
    let mut rows: Vec<i64> = Vec::new();
    let mut i: usize = first;
    while i < n
        invariant
            first <= i <= n,
            n == data@.len(),
            c == (Canvas { w: w as nat, h: h as nat, max: max_val }),
            span == Num::of(4 * c.h).difference(Num::of(1)),
            rows@.len() == i - first,
            forall|k: int| 0 <= k < rows@.len() ==> #[trigger] rows@[k] == c.row_of(data@[first + k]),
        decreases n - i,
    {
        let b = data[i].clamped(Num::zero(), max_val);
        let y: i64 = Num::from_u64(1).minus(b.over(max_val)).times(span).to_i64();
        rows.push(y);
        i = i + 1;
    }
    Trace { rows }
}

fn has_dot(t: &Trace, w: usize, h: usize, x: usize, y: usize, Ghost(c): Ghost<Canvas>, Ghost(data): Ghost<Seq<Num>>) -> (r: bool)
    requires
        c.w == w,
        c.h == h,
        2 * w <= usize::MAX,
        4 * h <= usize::MAX,
        t.of(c, data),
    ensures
        r == c.dot(data, x as int, y as int),
{
    let n: usize = t.rows.len();
    let offset: usize = 2 * w - n;
    if x < offset || x >= 2 * w || y >= 4 * h {
        return false;
    }
    proof {
        assert(t.rows@[x - offset] == c.level(data, x as int));
    }
    let here: i128 = t.rows[x - offset] as i128;
    let at: i128 = y as i128;
    if at == here {
        return true;
    }
    if x > offset {
        proof {
            assert(t.rows@[x - 1 - offset] == c.level(data, x - 1));
        }
        let left: i128 = t.rows[x - 1 - offset] as i128;
        return (here < at && at < left) || (left < at && at < here);
    }
    false
}

/// Whether a series has a dot in a cell.
fn has_cell(t: &Trace, w: usize, h: usize, cx: usize, cy: usize, Ghost(c): Ghost<Canvas>, Ghost(data): Ghost<Seq<Num>>) -> (r: bool)
    requires
        c.w == w,
        c.h == h,
        2 * w <= usize::MAX,
        4 * h <= usize::MAX,
        cx < w,
        cy < h,
        t.of(c, data),
    ensures
        r == c.touches(data, cx as int, cy as int, 8),
{
    let mut any = false;
    let mut k: usize = 0;
    while k < 8
        invariant
            k <= 8,
            c.w == w,
            c.h == h,
            2 * w <= usize::MAX,
            4 * h <= usize::MAX,
            cx < w,
            cy < h,
            t.of(c, data),
            any == c.touches(data, cx as int, cy as int, k as nat),
        decreases 8 - k,
    {
        if has_dot(t, w, h, 2 * cx + k % 2, 4 * cy + k / 2, Ghost(c), Ghost(data)) {
            any = true;
        }
        k = k + 1;
    }
    any
}

/// Whether any series has a dot there.
fn has_any(
    ts: &Vec<Trace>,
    w: usize,
    h: usize,
    x: usize,
    y: usize,
    Ghost(c): Ghost<Canvas>,
    Ghost(series): Ghost<Seq<Seq<Num>>>,
) -> (r: bool)
    requires
        c.w == w,
        c.h == h,
        2 * w <= usize::MAX,
        4 * h <= usize::MAX,
        ts@.len() == series.len(),
        forall|i: int| 0 <= i < series.len() ==> (#[trigger] ts@[i]).of(c, series[i]),
    ensures
        r == c.lit(series, x as int, y as int, series.len()),
{
    let mut any = false;
    let mut i: usize = 0;
    while i < ts.len()
        invariant
            i <= ts@.len(),
            c.w == w,
            c.h == h,
            2 * w <= usize::MAX,
            4 * h <= usize::MAX,
            ts@.len() == series.len(),
            forall|k: int| 0 <= k < series.len() ==> (#[trigger] ts@[k]).of(c, series[k]),
            any == c.lit(series, x as int, y as int, i as nat),
        decreases ts@.len() - i,
    {
        if has_dot(&ts[i], w, h, x, y, Ghost(c), Ghost(series[i as int])) {
            any = true;
        }
        i = i + 1;
    }
    any
}

fn bit_of(k: usize) -> (r: u32)
    requires
        k < 8,
    ensures
        r == dot_bit(k as int),
        r <= 0x80,
{
    if k == 0 {
        0x01
    } else if k == 1 {
        0x08
    } else if k == 2 {
        0x02
    } else if k == 3 {
        0x10
    } else if k == 4 {
        0x04
    } else if k == 5 {
        0x20
    } else if k == 6 {
        0x40
    } else {
        0x80
    }
}

/// A cell's character.
fn cell_glyph(
    ts: &Vec<Trace>,
    w: usize,
    h: usize,
    cx: usize,
    cy: usize,
    Ghost(c): Ghost<Canvas>,
    Ghost(series): Ghost<Seq<Seq<Num>>>,
) -> (r: char)
    requires
        c.w == w,
        c.h == h,
        2 * w <= usize::MAX,
        4 * h <= usize::MAX,
        cx < w,
        cy < h,
        ts@.len() == series.len(),
        forall|i: int| 0 <= i < series.len() ==> (#[trigger] ts@[i]).of(c, series[i]),
    ensures
        r == c.glyph(series, cx as int, cy as int),
        unit_cell(r),
{
    let mut bits: u32 = 0;
    let mut k: usize = 0;
    while k < 8
        invariant
            k <= 8,
            c.w == w,
            c.h == h,
            2 * w <= usize::MAX,
            4 * h <= usize::MAX,
            cx < w,
            cy < h,
            ts@.len() == series.len(),
            forall|i: int| 0 <= i < series.len() ==> (#[trigger] ts@[i]).of(c, series[i]),
            bits == c.bits(series, cx as int, cy as int, k as nat),
            bits <= 0x80 * k,
        decreases 8 - k,
    {
        if has_any(ts, w, h, 2 * cx + k % 2, 4 * cy + k / 2, Ghost(c), Ghost(series)) {
            bits = bits + bit_of(k);
        }
        k = k + 1;
    }
    proof {
        lemma_bits_bound(c, series, cx as int, cy as int);
    }
    if bits == 0 {
        ' '
    } else {
        match char_of(0x2800 + bits) {
            Some(g) => g,
            None => ' ',
        }
    }
}

/// `char::from_u32` gives the character of a code point; surrogates and numbers
/// past the last code point have none.
#[verifier::external_body]
fn char_of(n: u32) -> (r: Option<char>)
    ensures
        r == if n < 0xd800 || 0xe000 <= n <= 0x10ffff {
            Some(n as char)
        } else {
            None
        },
{
    char::from_u32(n)
}

/// A cell's color.
fn cell_hue(
    ts: &Vec<Trace>,
    w: usize,
    h: usize,
    cx: usize,
    cy: usize,
    Ghost(c): Ghost<Canvas>,
    Ghost(series): Ghost<Seq<Seq<Num>>>,
) -> (r: usize)
    requires
        c.w == w,
        c.h == h,
        2 * w <= usize::MAX,
        4 * h <= usize::MAX,
        cx < w,
        cy < h,
        ts@.len() == series.len(),
        forall|i: int| 0 <= i < series.len() ==> (#[trigger] ts@[i]).of(c, series[i]),
    ensures
        r == c.hue(series, cx as int, cy as int),
        r <= ts@.len(),
{
    let mut found: Vec<usize> = Vec::new();
    let mut i: usize = 0;
    while i < ts.len()
        invariant
            i <= ts@.len(),
            c.w == w,
            c.h == h,
            2 * w <= usize::MAX,
            4 * h <= usize::MAX,
            cx < w,
            cy < h,
            ts@.len() == series.len(),
            forall|k: int| 0 <= k < series.len() ==> (#[trigger] ts@[k]).of(c, series[k]),
            found@.len() == c.contributors(series, cx as int, cy as int, i as nat).len(),
            forall|k: int|
                0 <= k < found@.len() ==> #[trigger] found@[k] == c.contributors(series, cx as int, cy as int, i as nat)[k]
                    && found@[k] < i,
        decreases ts@.len() - i,
    {
        if has_cell(&ts[i], w, h, cx, cy, Ghost(c), Ghost(series[i as int])) {
            found.push(i);
        }
        i = i + 1;
    }
    if found.len() == 0 {
        0
    } else {
        let k: usize = cx % found.len();
        proof {
            assert(found@[k as int] == c.contributors(series, cx as int, cy as int, series.len())[k as int]);
        }
        found[k] + 1
    }
}

/// Styles a row run by run.
fn styled_runs(hues: &Vec<usize>, glyphs: &Vec<char>, colors: &Vec<u8>, Ghost(hs): Ghost<Seq<int>>) -> (r: String)
    requires
        hs.len() == hues@.len(),
        glyphs@.len() == hues@.len(),
        forall|i: int| 0 <= i < hs.len() ==> #[trigger] hs[i] == hues@[i],
        forall|i: int| 0 <= i < hs.len() ==> #[trigger] hues@[i] <= colors@.len(),
    ensures
        r@ == runs(hs, glyphs@, colors@, 0),
{
    let n: usize = hues.len();
    let mut out = String::new();
    let mut x: usize = 0;
    proof {
        assert(out@ + runs(hs, glyphs@, colors@, 0) =~= runs(hs, glyphs@, colors@, 0));
    }
    while x < n
        invariant
            x <= n,
            n == hues@.len(),
            hs.len() == n,
            glyphs@.len() == n,
            forall|i: int| 0 <= i < hs.len() ==> #[trigger] hs[i] == hues@[i],
            forall|i: int| 0 <= i < hs.len() ==> #[trigger] hues@[i] <= colors@.len(),
            out@ + runs(hs, glyphs@, colors@, x as int) == runs(hs, glyphs@, colors@, 0),
        decreases n - x,
    {
        let ghost done = out@;
        let mut e: usize = x + 1;
        while e < n && hues[e] == hues[x]
            invariant
                x < e <= n,
                n == hues@.len(),
                hs.len() == n,
                forall|i: int| 0 <= i < hs.len() ==> #[trigger] hs[i] == hues@[i],
                run_end(hs, x as int, x + 1) == run_end(hs, x as int, e as int),
            decreases n - e,
        {
            proof {
                assert(hs[e as int] == hues@[e as int] && hs[x as int] == hues@[x as int]);
            }
            e = e + 1;
        }
        proof {
            assert(hs[x as int] == hues@[x as int]);
            if e < n {
                assert(hs[e as int] == hues@[e as int]);
            }
        }
        let run = string_of(glyphs, x, e);
        if hues[x] > 0 {
            out.append(Style::new().fg(colors[hues[x] - 1]).render(run.as_str()).as_str());
        } else {
            out.append(run.as_str());
        }
        proof {
            let piece = colored(colors@, hs[x as int], glyphs@.subrange(x as int, e as int));
            assert((done + piece) + runs(hs, glyphs@, colors@, e as int) =~= done + (piece + runs(
                hs,
                glyphs@,
                colors@,
                e as int,
            )));
        }
        x = e;
    }
    proof {
        assert(out@ + runs(hs, glyphs@, colors@, n as int) =~= out@);
    }
    out
}

/// Plots the series as braille line charts over `w` by `h` cells, scaled to
/// `[0, max_val]`. Only the trailing samples that fit are drawn, newest at the
/// right edge. Where several series contribute to a cell their colors take
/// turns by column, so close lines read as interleaved. Every line is exactly
/// `w` cells wide.
pub fn render_braille(series: &Vec<&Vec<Num>>, colors: &Vec<u8>, max_val: Num, w: usize, h: usize) -> (r: Vec<String>)
    requires
        max_val.at_least(Num::spec_zero()),
        colors@.len() >= series@.len(),
        2 * w <= usize::MAX,
        4 * h <= usize::MAX,
    ensures
        w < 1 || h < 1 ==> r@.len() == 0,
        w >= 1 && h >= 1 ==> r@.len() == h,
        forall|k: int|
            0 <= k < r@.len() ==> (#[trigger] r@[k])@ == (Canvas { w: w as nat, h: h as nat, max: max_val }).line(
                samples(series@),
                colors@,
                k,
            ),
        forall|k: int| 0 <= k < r@.len() ==> plain_line((#[trigger] r@[k])@, w as nat),
{
    let mut lines: Vec<String> = Vec::new();
    if w < 1 || h < 1 {
        return lines;
    }
    let ghost c = Canvas { w: w as nat, h: h as nat, max: max_val };
    let ghost all = samples(series@);
    let mut ts: Vec<Trace> = Vec::new();
    let mut i: usize = 0;
    while i < series.len()
        invariant
            i <= series@.len(),
            all == samples(series@),
            c == (Canvas { w: w as nat, h: h as nat, max: max_val }),
            2 * w <= usize::MAX,
            4 * h <= usize::MAX,
            ts@.len() == i,
            forall|k: int| 0 <= k < i ==> (#[trigger] ts@[k]).of(c, all[k]),
        decreases series@.len() - i,
    {
        let t = trace(series[i], w, h, max_val);
        proof {
            assert(all[i as int] == series@[i as int]@);
        }
        ts.push(t);
        i = i + 1;
    }
    let mut cy: usize = 0;
    while cy < h
        invariant
            cy <= h,
            c == (Canvas { w: w as nat, h: h as nat, max: max_val }),
            2 * w <= usize::MAX,
            4 * h <= usize::MAX,
            colors@.len() >= ts@.len(),
            ts@.len() == all.len(),
            forall|k: int| 0 <= k < all.len() ==> (#[trigger] ts@[k]).of(c, all[k]),
            lines@.len() == cy,
            forall|k: int| 0 <= k < cy ==> (#[trigger] lines@[k])@ == c.line(all, colors@, k),
            forall|k: int| 0 <= k < cy ==> plain_line((#[trigger] lines@[k])@, w as nat),
        decreases h - cy,
    {
        let mut hues: Vec<usize> = Vec::new();
        let mut glyphs: Vec<char> = Vec::new();
        let mut cx: usize = 0;
        while cx < w
            invariant
                cx <= w,
                cy < h,
                c.w == w,
                c.h == h,
                2 * w <= usize::MAX,
                4 * h <= usize::MAX,
                colors@.len() >= ts@.len(),
                ts@.len() == all.len(),
                forall|k: int| 0 <= k < all.len() ==> (#[trigger] ts@[k]).of(c, all[k]),
                hues@.len() == cx,
                glyphs@.len() == cx,
                forall|k: int| 0 <= k < cx ==> #[trigger] hues@[k] == c.hue(all, k, cy as int),
                forall|k: int| 0 <= k < cx ==> #[trigger] hues@[k] <= colors@.len(),
                forall|k: int| 0 <= k < cx ==> #[trigger] glyphs@[k] == c.glyph(all, k, cy as int),
                unit_cells(glyphs@),
            decreases w - cx,
        {
            hues.push(cell_hue(&ts, w, h, cx, cy, Ghost(c), Ghost(all)));
            glyphs.push(cell_glyph(&ts, w, h, cx, cy, Ghost(c), Ghost(all)));
            cx = cx + 1;
        }
        let ghost hs = c.hues(all, cy as int);
        proof {
            assert(glyphs@ =~= c.glyphs(all, cy as int));
            lemma_runs_plain(hs, glyphs@, colors@, 0);
        }
        lines.push(styled_runs(&hues, &glyphs, colors, Ghost(hs)));
        cy = cy + 1;
    }
    lines
}

/// Cells at the right edge that frame the floating dots with each lane's name.
pub const GUTTER_W: usize = 4;

/// The width of the plot beside the gutter; narrow panels have none.
pub open spec fn plot_width(w: nat) -> nat {
    if w >= 24 {
        (w - GUTTER_W) as nat
    } else {
        w
    }
}

/// The rows of a plot.
pub open spec fn plot(series: Seq<Seq<Num>>, colors: Seq<u8>, max: Num, w: nat, h: nat) -> Seq<Seq<char>> {
    if w < 1 {
        seq![]
    } else {
        Seq::new(h, |k: int| (Canvas { w, h, max }).line(series, colors, k))
    }
}

/// The mark for a row: of several the last.
pub open spec fn mark_at(marks: Seq<(int, Seq<char>)>, row: int) -> Option<Seq<char>>
    decreases marks.len(),
{
    if marks.len() == 0 {
        None
    } else if marks.last().0 == row {
        Some(marks.last().1)
    } else {
        mark_at(marks.drop_last(), row)
    }
}

/// A plot's row with its mark at the right edge of the gutter.
pub open spec fn framed(line: Seq<char>, mark: Option<Seq<char>>, w: nat) -> Seq<char> {
    match mark {
        Some(m) => padded(line, plot_width(w)) + repeated(
            ' ',
            if visible(m) < GUTTER_W {
                (GUTTER_W - visible(m)) as nat
            } else {
                0
            },
        ) + m,
        None => padded(line, w),
    }
}

/// A plot's rows with their marks; a narrow panel has no gutter for them.
pub open spec fn scaled(lines: Seq<Seq<char>>, marks: Seq<(int, Seq<char>)>, w: nat) -> Seq<Seq<char>> {
    if plot_width(w) == w {
        lines
    } else {
        Seq::new(lines.len(), |i: int| framed(lines[i], mark_at(marks, i), w))
    }
}

/// The marks of the shared canvas: the ends of its scale, and its middle where
/// there is room.
pub open spec fn scale_marks(h: nat) -> Seq<(int, Seq<char>)> {
    if h >= 4 {
        seq![(0int, dimmed("100"@)), (h - 1, dimmed("0"@)), ((h / 2) as int, dimmed("50"@))]
    } else if h >= 2 {
        seq![(0int, dimmed("100"@)), (h - 1, dimmed("0"@))]
    } else {
        seq![]
    }
}

/// The height of a lane: taller ones first when the rows do not divide evenly.
pub open spec fn lane_height(n: nat, h: nat, i: int) -> nat {
    if i < h % n {
        h / n + 1
    } else {
        h / n
    }
}

/// The mark of a lane: its series' name, cut to three characters, in the
/// middle.
pub open spec fn lane_marks(colors: Seq<u8>, labels: Seq<&str>, i: int, lh: nat) -> Seq<(int, Seq<char>)> {
    if i < labels.len() && labels[i]@.len() > 0 {
        seq![((lh / 2) as int, Style::ink(colors[i]).rendered(cut(labels[i]@, (GUTTER_W - 1) as nat)))]
    } else {
        seq![]
    }
}

/// The rows of one series' lane.
pub open spec fn lane(
    series: Seq<Seq<Num>>,
    colors: Seq<u8>,
    labels: Seq<&str>,
    max: Num,
    w: nat,
    h: nat,
    i: int,
) -> Seq<Seq<char>> {
    let lh = lane_height(series.len(), h, i);
    scaled(plot(seq![series[i]], seq![colors[i]], max, plot_width(w), lh), lane_marks(colors, labels, i, lh), w)
}

/// The rows of the first `n` lanes.
pub open spec fn lanes(
    series: Seq<Seq<Num>>,
    colors: Seq<u8>,
    labels: Seq<&str>,
    max: Num,
    w: nat,
    h: nat,
    n: nat,
) -> Seq<Seq<char>>
    decreases n,
{
    if n == 0 {
        seq![]
    } else {
        lanes(series, colors, labels, max, w, h, (n - 1) as nat) + lane(series, colors, labels, max, w, h, n - 1)
    }
}

/// One lane per series stacked in `h` rows, or one shared canvas where that
/// leaves a lane fewer than two rows.
#[verifier::opaque]
pub open spec fn chart(
    series: Seq<Seq<Num>>,
    colors: Seq<u8>,
    labels: Seq<&str>,
    max: Num,
    w: nat,
    h: nat,
) -> Seq<Seq<char>> {
    let n = series.len();
    if n == 0 || h < 1 {
        seq![]
    } else if h < 2 * n {
        scaled(plot(series, colors, max, plot_width(w), h), scale_marks(h), w)
    } else {
        lanes(series, colors, labels, max, w, h, n)
    }
}

struct Mark {
    row: usize,
    text: String,
}

spec fn mark_list(v: Seq<Mark>) -> Seq<(int, Seq<char>)> {
    Seq::new(v.len(), |i: int| (v[i].row as int, v[i].text@))
}

fn find_mark(marks: &Vec<Mark>, row: usize) -> (r: Option<String>)
    ensures
        match r {
            Some(m) => mark_at(mark_list(marks@), row as int) == Some(m@),
            None => mark_at(mark_list(marks@), row as int) is None,
        },
{
    let ghost ms = mark_list(marks@);
    let mut i: usize = marks.len();
    proof {
        assert(ms.take(i as int) =~= ms);
    }
    while i > 0
        invariant
            i <= marks@.len(),
            ms == mark_list(marks@),
            mark_at(ms, row as int) == mark_at(ms.take(i as int), row as int),
        decreases i,
    {
        i = i - 1;
        proof {
            assert(ms.take(i + 1).drop_last() =~= ms.take(i as int));
            assert(ms.take(i + 1).last() == ms[i as int]);
        }
        if marks[i].row == row {
            return Some(marks[i].text.clone());
        }
    }
    proof {
        assert(ms.take(0).len() == 0);
    }
    None
}

/// A text that fits into the gutter.
spec fn fits_gutter(s: Seq<char>) -> bool {
    plain_line(s, stripped(s).len()) && stripped(s).len() <= GUTTER_W
}

/// Marks that fit into the gutter.
spec fn marks_fit(marks: Seq<Mark>) -> bool {
    forall|i: int| 0 <= i < marks.len() ==> fits_gutter((#[trigger] marks[i]).text@)
}

proof fn lemma_mark_found(marks: Seq<Mark>, row: int)
    requires
        marks_fit(marks),
        mark_at(mark_list(marks), row) is Some,
    ensures
        fits_gutter(mark_at(mark_list(marks), row)->0),
    decreases marks.len(),
{
    assert(mark_list(marks).last() == (marks.last().row as int, marks.last().text@));
    if mark_list(marks).last().0 != row {
        assert(mark_list(marks).drop_last() =~= mark_list(marks.drop_last()));
        assert forall|i: int| 0 <= i < marks.drop_last().len() implies fits_gutter(
            (#[trigger] marks.drop_last()[i]).text@,
        ) by {
            assert(marks.drop_last()[i] == marks[i]);
        }
        lemma_mark_found(marks.drop_last(), row);
    }
}

/// Adds the gutter's marks to a plot's rows.
fn add_marks(lines: &Vec<String>, marks: &Vec<Mark>, w: usize) -> (r: Vec<String>)
    requires
        forall|k: int| 0 <= k < lines@.len() ==> plain_line((#[trigger] lines@[k])@, plot_width(w as nat)),
    ensures
        texts(r@) == scaled(texts(lines@), mark_list(marks@), w as nat),
        marks_fit(marks@) ==> forall|k: int| 0 <= k < r@.len() ==> plain_line((#[trigger] r@[k])@, w as nat),
{
    let plot_w: usize = if w >= 24 {
        w - GUTTER_W
    } else {
        w
    };
    let mut out: Vec<String> = Vec::new();
    let mut i: usize = 0;
    while i < lines.len()
        invariant
            i <= lines@.len(),
            plot_w == plot_width(w as nat),
            forall|k: int| 0 <= k < lines@.len() ==> plain_line((#[trigger] lines@[k])@, plot_width(w as nat)),
            out@.len() == i,
            forall|k: int|
                0 <= k < i ==> (#[trigger] out@[k])@ == scaled(texts(lines@), mark_list(marks@), w as nat)[k],
            marks_fit(marks@) ==> forall|k: int| 0 <= k < i ==> plain_line((#[trigger] out@[k])@, w as nat),
        decreases lines@.len() - i,
    {
        let line = lines[i].as_str();
        proof {
            assert(texts(lines@)[i as int] == line@);
        }
        if plot_w == w {
            out.push(lines[i].clone());
        } else {
            match find_mark(marks, i) {
                Some(m) => {
                    let mut text = pad_line(line, plot_w);
                    let ghost base = text@;
                    let used: usize = width(m.as_str());
                    let room: usize = if used < GUTTER_W {
                        GUTTER_W - used
                    } else {
                        0
                    };
                    text.append(spaces(room).as_str());
                    text.append(m.as_str());
                    proof {
                        if marks_fit(marks@) {
                            lemma_mark_found(marks@, i as int);
                            let n = stripped(m@).len();
                            assert(used == n);
                            lemma_plain_text(repeated(' ', room as nat));
                            lemma_plain_join(base, plot_w as nat, repeated(' ', room as nat), room as nat);
                            lemma_plain_join(base + repeated(' ', room as nat), (plot_w + room) as nat, m@, n);
                        }
                    }
                    out.push(text);
                },
                None => {
                    let text = pad_line(line, w);
                    out.push(text);
                },
            }
        }
        i = i + 1;
    }
    proof {
        assert(texts(out@) =~= scaled(texts(lines@), mark_list(marks@), w as nat));
    }
    out
}

/// The rows of a plot, as texts.
fn plot_lines(series: &Vec<&Vec<Num>>, colors: &Vec<u8>, max_val: Num, w: usize, h: usize) -> (r: Vec<String>)
    requires
        max_val.at_least(Num::spec_zero()),
        colors@.len() >= series@.len(),
        2 * w <= usize::MAX,
        4 * h <= usize::MAX,
        h >= 1,
    ensures
        texts(r@) == plot(samples(series@), colors@, max_val, w as nat, h as nat),
        r@.len() == if w < 1 {
            0
        } else {
            h as nat
        },
        forall|k: int| 0 <= k < r@.len() ==> plain_line((#[trigger] r@[k])@, w as nat),
{
    let r = render_braille(series, colors, max_val, w, h);
    proof {
        assert(texts(r@) =~= plot(samples(series@), colors@, max_val, w as nat, h as nat));
    }
    r
}

proof fn lemma_mark_fits(style: Style, s: Seq<char>)
    requires
        unit_cells(s),
        s.len() <= GUTTER_W,
    ensures
        fits_gutter(style.rendered(s)),
{
    lemma_plain_text(s);
    lemma_plain_render(style, s, s.len());
}

/// The rows of the shared canvas.
fn shared_canvas(series: &Vec<&Vec<Num>>, colors: &Vec<u8>, max_val: Num, w: usize, h: usize) -> (r: Vec<String>)
    requires
        max_val.at_least(Num::spec_zero()),
        colors@.len() >= series@.len(),
        2 * w <= usize::MAX,
        4 * h <= usize::MAX,
        h >= 1,
    ensures
        texts(r@) == scaled(
            plot(samples(series@), colors@, max_val, plot_width(w as nat), h as nat),
            scale_marks(h as nat),
            w as nat,
        ),
        forall|k: int| 0 <= k < r@.len() ==> plain_line((#[trigger] r@[k])@, w as nat),
        r@.len() == if w < 1 {
            0
        } else {
            h as nat
        },
{
    let plot_w: usize = if w >= 24 {
        w - GUTTER_W
    } else {
        w
    };
    let mut marks: Vec<Mark> = Vec::new();
    if h >= 2 {
        marks.push(Mark { row: 0, text: dim("100") });
        marks.push(Mark { row: h - 1, text: dim("0") });
        if h >= 4 {
            marks.push(Mark { row: h / 2, text: dim("50") });
        }
    }
    proof {
        reveal_strlit("100");
        reveal_strlit("0");
        reveal_strlit("50");
        lemma_mark_fits(Style::ink(crate::style::GRAY), "100"@);
        lemma_mark_fits(Style::ink(crate::style::GRAY), "0"@);
        lemma_mark_fits(Style::ink(crate::style::GRAY), "50"@);
        assert(mark_list(marks@) =~= scale_marks(h as nat));
        assert(marks_fit(marks@));
    }
    let lines = plot_lines(series, colors, max_val, plot_w, h);
    let r = add_marks(&lines, &marks, w);
    proof {
        assert(texts(r@).len() == r@.len());
        assert(texts(lines@).len() == lines@.len());
    }
    r
}

/// The rows of one series' lane.
fn one_lane(
    series: &Vec<&Vec<Num>>,
    colors: &Vec<u8>,
    labels: &Vec<&str>,
    max_val: Num,
    w: usize,
    h: usize,
    i: usize,
    lh: usize,
) -> (r: Vec<String>)
    requires
        max_val.at_least(Num::spec_zero()),
        colors@.len() >= series@.len(),
        2 * w <= usize::MAX,
        4 * h <= usize::MAX,
        i < series@.len(),
        1 <= lh <= h,
        lh == lane_height(series@.len(), h as nat, i as int),
    ensures
        texts(r@) == lane(samples(series@), colors@, labels@, max_val, w as nat, h as nat, i as int),
        (i < labels@.len() ==> unit_cells(labels@[i as int]@)) ==> forall|k: int|
            0 <= k < r@.len() ==> plain_line((#[trigger] r@[k])@, w as nat),
        r@.len() == if w < 1 {
            0
        } else {
            lh as nat
        },
{
    let plot_w: usize = if w >= 24 {
        w - GUTTER_W
    } else {
        w
    };
    let mut alone: Vec<&Vec<Num>> = Vec::new();
    alone.push(series[i]);
    let mut ink: Vec<u8> = Vec::new();
    ink.push(colors[i]);
    let mut marks: Vec<Mark> = Vec::new();
    if i < labels.len() && !labels[i].is_empty() {
        let label = truncate_runes(labels[i], GUTTER_W - 1);
        marks.push(Mark { row: lh / 2, text: Style::new().fg(colors[i]).render(label.as_str()) });
        proof {
            if unit_cells(labels@[i as int]@) {
                assert(unit_cells(label@));
                lemma_mark_fits(Style::ink(colors@[i as int]), label@);
                assert(marks_fit(marks@));
            }
        }
    }
    proof {
        assert(samples(alone@) =~= seq![samples(series@)[i as int]]);
        assert(ink@ =~= seq![colors@[i as int]]);
        assert(mark_list(marks@) =~= lane_marks(colors@, labels@, i as int, lh as nat));
    }
    let lines = plot_lines(&alone, &ink, max_val, plot_w, lh);
    let r = add_marks(&lines, &marks, w);
    proof {
        assert(texts(r@).len() == r@.len());
        assert(texts(lines@).len() == lines@.len());
    }
    r
}

proof fn lemma_lanes_len(
    series: Seq<Seq<Num>>,
    colors: Seq<u8>,
    labels: Seq<&str>,
    max: Num,
    w: nat,
    h: nat,
    n: nat,
)
    requires
        n <= series.len(),
        series.len() > 0,
        w >= 1,
    ensures
        lanes(series, colors, labels, max, w, h, n).len() == n * (h / series.len()) + if n < h % series.len() {
            n
        } else {
            h % series.len()
        },
    decreases n,
{
    let base = h / series.len();
    if n > 0 {
        lemma_lanes_len(series, colors, labels, max, w, h, (n - 1) as nat);
        assert(n * base == (n - 1) * base + base) by (nonlinear_arith);
        assert(lane(series, colors, labels, max, w, h, n - 1).len() == lane_height(series.len(), h, n - 1));
    } else {
        assert(0 * base == 0) by (nonlinear_arith);
    }
}

/// A chart fills the rows it is given.
pub proof fn lemma_chart_fills(series: Seq<Seq<Num>>, colors: Seq<u8>, labels: Seq<&str>, max: Num, w: nat, h: nat)
    requires
        series.len() > 0,
        w >= 1,
    ensures
        chart(series, colors, labels, max, w, h).len() == h,
{
    reveal(chart);
    let n = series.len();
    if h >= 2 * n {
        lemma_lanes_len(series, colors, labels, max, w, h, n);
        vstd::arithmetic::div_mod::lemma_fundamental_div_mod(h as int, n as int);
    }
}

/// The plots of the first `n` series, each alone in its color and as tall as
/// its lane, one below the other.
pub open spec fn stacked(series: Seq<Seq<Num>>, colors: Seq<u8>, max: Num, w: nat, h: nat, n: nat) -> Seq<Seq<char>>
    decreases n,
{
    if n == 0 {
        seq![]
    } else {
        stacked(series, colors, max, w, h, (n - 1) as nat) + plot(
            seq![series[n - 1]],
            seq![colors[n - 1]],
            max,
            w,
            lane_height(series.len(), h, n - 1),
        )
    }
}

proof fn lemma_lanes_bare(
    series: Seq<Seq<Num>>,
    colors: Seq<u8>,
    labels: Seq<&str>,
    max: Num,
    w: nat,
    h: nat,
    n: nat,
)
    requires
        w < 24,
    ensures
        lanes(series, colors, labels, max, w, h, n) == stacked(series, colors, max, w, h, n),
    decreases n,
{
    if n > 0 {
        lemma_lanes_bare(series, colors, labels, max, w, h, (n - 1) as nat);
    }
}

/// In a panel too narrow for the gutter, with two rows or more for each
/// series, a chart is the series' plots one below the other, each drawn alone,
/// and they fill the rows.
pub proof fn lemma_lanes_stack(series: Seq<Seq<Num>>, colors: Seq<u8>, labels: Seq<&str>, max: Num, w: nat, h: nat)
    requires
        series.len() >= 1,
        1 <= w < 24,
        h >= 2 * series.len(),
    ensures
        chart(series, colors, labels, max, w, h) == stacked(series, colors, max, w, h, series.len()),
        chart(series, colors, labels, max, w, h).len() == h,
{
    lemma_chart_fills(series, colors, labels, max, w, h);
    reveal(chart);
    lemma_lanes_bare(series, colors, labels, max, w, h, series.len());
}

/// Stacks one solid-color braille sparkline per series, each in its own band
/// of `w` by `h` cells (taller bands first when `h` does not divide evenly).
/// When `h` is too short to give each series a usable lane, it falls back to
/// the shared canvas. With names of one-cell characters every line is exactly
/// `w` cells wide.
pub fn render_lanes(
    series: &Vec<&Vec<Num>>,
    colors: &Vec<u8>,
    labels: &Vec<&str>,
    max_val: Num,
    w: usize,
    h: usize,
) -> (r: Vec<String>)
    requires
        max_val.at_least(Num::spec_zero()),
        colors@.len() >= series@.len(),
        2 * w <= usize::MAX,
        4 * h <= usize::MAX,
        2 * series@.len() <= usize::MAX,
    ensures
        texts(r@) == chart(samples(series@), colors@, labels@, max_val, w as nat, h as nat),
        (forall|i: int| 0 <= i < labels@.len() ==> unit_cells((#[trigger] labels@[i])@)) ==> forall|k: int|
            0 <= k < r@.len() ==> plain_line((#[trigger] r@[k])@, w as nat),
{
    proof {
        reveal(chart);
    }
    let n: usize = series.len();
    let mut out: Vec<String> = Vec::new();
    let ghost all = samples(series@);
    if n == 0 || h < 1 {
        proof {
            assert(texts(out@) =~= seq![]);
        }
        return out;
    }
    if h < 2 * n {
        return shared_canvas(series, colors, max_val, w, h);
    }
    let base: usize = h / n;
    let extra: usize = h % n;
    let mut i: usize = 0;
    proof {
        assert(texts(out@) =~= lanes(all, colors@, labels@, max_val, w as nat, h as nat, 0));
        vstd::arithmetic::div_mod::lemma_fundamental_div_mod(h as int, n as int);
        assert(base >= 2) by (nonlinear_arith)
            requires
                h == n * base + extra,
                extra < n,
                h >= 2 * n,
                n > 0,
        ;
        assert(base + 1 <= h || extra == 0) by (nonlinear_arith)
            requires
                h == n * base + extra,
                n > 0,
                base >= 2,
        ;
        assert(base <= h) by (nonlinear_arith)
            requires
                h == n * base + extra,
                n > 0,
        ;
    }
    while i < n
        invariant
            i <= n,
            n == series@.len(),
            n > 0,
            all == samples(series@),
            base == h / n,
            extra == h % n,
            2 <= base <= h,
            base + 1 <= h || extra == 0,
            max_val.at_least(Num::spec_zero()),
            colors@.len() >= series@.len(),
            2 * w <= usize::MAX,
            4 * h <= usize::MAX,
            texts(out@) == lanes(all, colors@, labels@, max_val, w as nat, h as nat, i as nat),
            (forall|j: int| 0 <= j < labels@.len() ==> unit_cells((#[trigger] labels@[j])@)) ==> forall|k: int|
                0 <= k < out@.len() ==> plain_line((#[trigger] out@[k])@, w as nat),
        decreases n - i,
    {
        let lh: usize = if i < extra {
            base + 1
        } else {
            base
        };
        let mut rows = one_lane(series, colors, labels, max_val, w, h, i, lh);
        let ghost before = out@;
        let ghost added = rows@;
        out.append(&mut rows);
        proof {
            assert(out@ =~= before + added);
            assert(texts(out@) =~= texts(before) + texts(added));
            if forall|j: int| 0 <= j < labels@.len() ==> unit_cells((#[trigger] labels@[j])@) {
                assert forall|k: int| 0 <= k < out@.len() implies plain_line((#[trigger] out@[k])@, w as nat) by {
                    if k < before.len() {
                        assert(out@[k] == before[k]);
                    } else {
                        assert(out@[k] == added[k - before.len()]);
                    }
                }
            }
        }
        i = i + 1;
    }
    out
}

/// Whether some series has a dot there.
pub open spec fn any_dot(c: Canvas, series: Seq<Seq<Num>>, x: int, y: int) -> bool {
    exists|s: int| 0 <= s < series.len() && #[trigger] c.dot(series[s], x, y)
}

/// Whether a series has a dot in a cell, two dots wide and four high.
pub open spec fn in_cell(c: Canvas, data: Seq<Num>, cx: int, cy: int) -> bool {
    exists|x: int, y: int| 2 * cx <= x < 2 * cx + 2 && 4 * cy <= y < 4 * cy + 4 && #[trigger] c.dot(data, x, y)
}

proof fn lemma_lit(c: Canvas, series: Seq<Seq<Num>>, x: int, y: int, n: nat)
    requires
        n <= series.len(),
    ensures
        c.lit(series, x, y, n) == exists|s: int| 0 <= s < n && #[trigger] c.dot(series[s], x, y),
    decreases n,
{
    if n > 0 {
        lemma_lit(c, series, x, y, (n - 1) as nat);
        if c.dot(series[n - 1], x, y) {
        } else if c.lit(series, x, y, n) {
            let s = choose|s: int| 0 <= s < n - 1 && #[trigger] c.dot(series[s], x, y);
            assert(c.dot(series[s], x, y));
        }
    }
}

/// A cell's character shows its dots: a space without any, else the Braille
/// pattern, whose bits go down the first three rows of the left column, then of
/// the right, and along the fourth row last.
pub proof fn lemma_glyph_shows_dots(c: Canvas, series: Seq<Seq<Num>>, cx: int, cy: int)
    ensures
        ({
            let d = |x: int, y: int, bit: int|
                if any_dot(c, series, 2 * cx + x, 4 * cy + y) {
                    bit
                } else {
                    0
                };
            let dots = d(0, 0, 1) + d(0, 1, 2) + d(0, 2, 4) + d(1, 0, 8) + d(1, 1, 16) + d(1, 2, 32) + d(0, 3, 64) + d(
                1,
                3,
                128,
            );
            c.glyph(series, cx, cy) as int == if dots == 0 {
                ' ' as int
            } else {
                0x2800 + dots
            }
        }),
{
    let n = series.len();
    lemma_lit(c, series, 2 * cx, 4 * cy, n);
    lemma_lit(c, series, 2 * cx, 4 * cy + 1, n);
    lemma_lit(c, series, 2 * cx, 4 * cy + 2, n);
    lemma_lit(c, series, 2 * cx, 4 * cy + 3, n);
    lemma_lit(c, series, 2 * cx + 1, 4 * cy, n);
    lemma_lit(c, series, 2 * cx + 1, 4 * cy + 1, n);
    lemma_lit(c, series, 2 * cx + 1, 4 * cy + 2, n);
    lemma_lit(c, series, 2 * cx + 1, 4 * cy + 3, n);
    reveal_with_fuel(Canvas::bits, 9);
}

/// A new sample moves what is drawn one column to the left.
pub proof fn lemma_drawing_scrolls(c: Canvas, data: Seq<Num>, v: Num, x: int, y: int)
    requires
        2 <= x < 2 * c.w,
    ensures
        c.dot(data.push(v), x - 1, y) == c.dot(data, x, y),
{
    if c.drawn(data, x) {
        let i = c.place(data.len(), x);
        assert(data.push(v)[i] == data[i]);
        if c.drawn(data, x - 1) {
            assert(data.push(v)[i - 1] == data[i - 1]);
        }
    }
}

/// A line goes from sample to sample without a break: in the column of a sample
/// it has the dot of that sample and those between it and the sample before,
/// and no others. The newest sample is in the last column.
pub proof fn lemma_line_unbroken(c: Canvas, data: Seq<Num>, k: int, y: int)
    requires
        0 <= k < 2 * c.w,
        0 <= y < 4 * c.h,
    ensures
        k >= data.len() ==> !c.dot(data, 2 * c.w - 1 - k, y),
        k < data.len() ==> c.dot(data, 2 * c.w - 1 - k, y) == ({
            let here = c.row_of(data[data.len() - 1 - k]);
            let left = c.row_of(data[data.len() - 2 - k]);
            ||| y == here
            ||| k + 1 < data.len() && k + 1 < 2 * c.w && (here < y < left || left < y < here)
        }),
{
}

/// Whether a series has the `k`-th dot of a cell, row by row.
spec fn nth_dot(c: Canvas, data: Seq<Num>, cx: int, cy: int, k: int) -> bool {
    c.dot(data, 2 * cx + k % 2, 4 * cy + k / 2)
}

proof fn lemma_touched(c: Canvas, data: Seq<Num>, cx: int, cy: int, n: nat)
    ensures
        c.touches(data, cx, cy, n) == exists|k: int| 0 <= k < n && #[trigger] nth_dot(c, data, cx, cy, k),
    decreases n,
{
    if n > 0 {
        lemma_touched(c, data, cx, cy, (n - 1) as nat);
        assert(nth_dot(c, data, cx, cy, n - 1) == c.dot(data, 2 * cx + (n - 1) % 2, 4 * cy + (n - 1) / 2));
    }
}

proof fn lemma_nth_of(x: int, y: int, cx: int, cy: int) -> (k: int)
    requires
        2 * cx <= x < 2 * cx + 2,
        4 * cy <= y < 4 * cy + 4,
    ensures
        0 <= k < 8,
        2 * cx + k % 2 == x,
        4 * cy + k / 2 == y,
{
    2 * (y - 4 * cy) + (x - 2 * cx)
}

proof fn lemma_touch_at(c: Canvas, data: Seq<Num>, cx: int, cy: int, x: int, y: int)
    requires
        2 * cx <= x < 2 * cx + 2,
        4 * cy <= y < 4 * cy + 4,
        c.dot(data, x, y),
    ensures
        c.touches(data, cx, cy, 8),
{
    lemma_touched(c, data, cx, cy, 8);
    let k = lemma_nth_of(x, y, cx, cy);
    assert(nth_dot(c, data, cx, cy, k) == c.dot(data, x, y));
}

proof fn lemma_touch_where(c: Canvas, data: Seq<Num>, cx: int, cy: int) -> (p: (int, int))
    requires
        c.touches(data, cx, cy, 8),
    ensures
        2 * cx <= p.0 < 2 * cx + 2,
        4 * cy <= p.1 < 4 * cy + 4,
        c.dot(data, p.0, p.1),
{
    lemma_touched(c, data, cx, cy, 8);
    let k = choose|k: int| 0 <= k < 8 && #[trigger] nth_dot(c, data, cx, cy, k);
    (2 * cx + k % 2, 4 * cy + k / 2)
}

proof fn lemma_touches(c: Canvas, data: Seq<Num>, cx: int, cy: int)
    ensures
        c.touches(data, cx, cy, 8) == in_cell(c, data, cx, cy),
{
    if in_cell(c, data, cx, cy) {
        let (x, y) = choose|x: int, y: int|
            2 * cx <= x < 2 * cx + 2 && 4 * cy <= y < 4 * cy + 4 && #[trigger] c.dot(data, x, y);
        lemma_touch_at(c, data, cx, cy, x, y);
    } else if c.touches(data, cx, cy, 8) {
        let p = lemma_touch_where(c, data, cx, cy);
        assert(c.dot(data, p.0, p.1));
    }
}

proof fn lemma_contributors(c: Canvas, series: Seq<Seq<Num>>, cx: int, cy: int, n: nat)
    requires
        n <= series.len(),
    ensures
        forall|i: int|
            #![trigger c.contributors(series, cx, cy, n)[i]]
            0 <= i < c.contributors(series, cx, cy, n).len() ==> 0 <= c.contributors(series, cx, cy, n)[i] < n && in_cell(
                c,
                series[c.contributors(series, cx, cy, n)[i]],
                cx,
                cy,
            ),
        forall|i: int, j: int|
            0 <= i < j < c.contributors(series, cx, cy, n).len() ==> (#[trigger] c.contributors(series, cx, cy, n)[i]) < (
            #[trigger] c.contributors(series, cx, cy, n)[j]),
        forall|s: int|
            0 <= s < n && in_cell(c, #[trigger] series[s], cx, cy) ==> c.contributors(series, cx, cy, n).contains(s),
    decreases n,
{
    if n > 0 {
        let b = c.contributors(series, cx, cy, (n - 1) as nat);
        lemma_contributors(c, series, cx, cy, (n - 1) as nat);
        lemma_touches(c, series[n - 1], cx, cy);
        let a = c.contributors(series, cx, cy, n);
        assert forall|i: int| #![trigger a[i]] 0 <= i < a.len() implies 0 <= a[i] < n && in_cell(
            c,
            series[a[i]],
            cx,
            cy,
        ) by {
            if i < b.len() {
                assert(a[i] == b[i]);
            }
        }
        assert forall|i: int, j: int| 0 <= i < j < a.len() implies (#[trigger] a[i]) < (#[trigger] a[j]) by {
            assert(a[i] == b[i]);
            if j < b.len() {
                assert(a[j] == b[j]);
            }
        }
        assert forall|s: int| 0 <= s < n && in_cell(c, #[trigger] series[s], cx, cy) implies a.contains(s) by {
            if s < n - 1 {
                assert(b.contains(s));
                let i = choose|i: int| 0 <= i < b.len() && b[i] == s;
                assert(a[i] == s);
            } else {
                assert(a[b.len() as int] == s);
            }
        }
    }
}

/// A cell has the color of a series with a dot in it, and none where no series
/// has one.
pub proof fn lemma_cell_color(c: Canvas, series: Seq<Seq<Num>>, cx: int, cy: int)
    requires
        cx >= 0,
    ensures
        c.hue(series, cx, cy) == 0 ==> forall|s: int|
            0 <= s < series.len() ==> !in_cell(c, #[trigger] series[s], cx, cy),
        c.hue(series, cx, cy) != 0 ==> 1 <= c.hue(series, cx, cy) <= series.len() && in_cell(
            c,
            series[c.hue(series, cx, cy) - 1],
            cx,
            cy,
        ),
{
    let n = series.len();
    lemma_contributors(c, series, cx, cy, n);
    let a = c.contributors(series, cx, cy, n);
    if a.len() > 0 {
        let i = cx % a.len() as int;
        assert(0 <= i < a.len());
        assert(a[i] >= 0);
    }
}

/// Where the same series share two cells side by side, they take turns.
pub proof fn lemma_colors_take_turns(c: Canvas, series: Seq<Seq<Num>>, cx: int, cy: int, s: int, t: int)
    requires
        cx >= 0,
        0 <= s < t < series.len(),
        in_cell(c, series[s], cx, cy),
        in_cell(c, series[t], cx, cy),
        forall|k: int|
            0 <= k < series.len() ==> in_cell(c, #[trigger] series[k], cx, cy) == in_cell(c, series[k], cx + 1, cy),
    ensures
        c.hue(series, cx, cy) != c.hue(series, cx + 1, cy),
{
    let n = series.len();
    lemma_contributors(c, series, cx, cy, n);
    lemma_same_contributors(c, series, cx, cy, n);
    let a = c.contributors(series, cx, cy, n);
    assert(a.contains(s) && a.contains(t));
    let m = a.len() as int;
    assert(m >= 2);
    let i = cx % m;
    let j = (cx + 1) % m;
    assert(0 <= i < m && 0 <= j < m && i != j) by (nonlinear_arith)
        requires
            m >= 2,
            i == cx % m,
            j == (cx + 1) % m,
    {
        vstd::arithmetic::div_mod::lemma_fundamental_div_mod(cx, m);
        vstd::arithmetic::div_mod::lemma_fundamental_div_mod(cx + 1, m);
        if i == j {
            assert(m * ((cx + 1) / m - cx / m) == 1);
        }
    }
    if i < j {
        assert(a[i] < a[j]);
    } else {
        assert(a[j] < a[i]);
    }
}

proof fn lemma_same_contributors(c: Canvas, series: Seq<Seq<Num>>, cx: int, cy: int, n: nat)
    requires
        n <= series.len(),
        forall|k: int|
            0 <= k < series.len() ==> in_cell(c, #[trigger] series[k], cx, cy) == in_cell(c, series[k], cx + 1, cy),
    ensures
        c.contributors(series, cx, cy, n) == c.contributors(series, cx + 1, cy, n),
    decreases n,
{
    if n > 0 {
        lemma_same_contributors(c, series, cx, cy, (n - 1) as nat);
        lemma_touches(c, series[n - 1], cx, cy);
        lemma_touches(c, series[n - 1], cx + 1, cy);
    }
}

} // verus!
