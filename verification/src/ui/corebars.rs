//! Per-core CPU bars (htop-style), wrapping into columns when there are more
//! cores than rows so every core stays visible.

use crate::chars::{lemma_numeral_digits, numeral, numeral_of, repeated};
use crate::num::value::{grain, lemma_part_value, lemma_sign_of_value, lemma_truncated_value};
use crate::num::Num;
use crate::style::{
    lemma_plain_join, lemma_plain_render, lemma_plain_text, plain_line, unit_cells, visible, width, Style, GRAY,
};
use crate::text::{
    fitted, left_pad, lemma_bar_cells, lemma_fixed_cells, load_color, load_light, pad_truncate, repeat, right_aligned, spaces, tiled, BAR_EMPTY,
    BAR_FILLED, LAYOUT_GAP,
};
use vstd::prelude::*;
use vstd::string::StringExecFns;

verus! {

/// The width of the widest core number.
pub open spec fn label_width(n: nat) -> nat {
    numeral(if n == 0 {
        0
    } else {
        (n - 1) as nat
    }).len()
}

/// How many columns fit in `w` cells at the preferred gap with a usable bar.
pub open spec fn fit_cols(n: nat, w: nat) -> nat {
    let cols = (w + LAYOUT_GAP as nat) / (label_width(n) + 7 + LAYOUT_GAP as nat);
    if cols < 1 {
        1
    } else {
        cols
    }
}

/// A quotient rounded up.
pub open spec fn ceil_div(n: nat, d: nat) -> nat {
    ((n + d - 1) / d as int) as nat
}

/// The line count at which the spaced layout is afforded.
pub open spec fn spaced_height(n: nat, w: nat) -> int {
    ceil_div(n, fit_cols(n, w)) * 2 - 1
}

/// The widest gap up to `gap` at which `cols` columns fit, or 1.
pub open spec fn fit_gap(w: nat, min_w: nat, cols: nat, gap: nat) -> nat
    decreases gap,
{
    if gap > 1 && (w + gap) / (min_w + gap) < cols {
        fit_gap(w, min_w, cols, (gap - 1) as nat)
    } else {
        gap
    }
}

/// Where the bars stand.
pub struct Layout {
    /// A blank line between bar rows keeps the grid airy.
    pub spaced: bool,
    pub cols: nat,
    pub gap: nat,
    pub col_w: nat,
    /// Bars in a column.
    pub per_col: nat,
}

/// The layout of `n` bars in `w` by `h` cells. Spacing halves the usable rows,
/// so it is used only when every core still fits at the preferred gap with a
/// usable bar; otherwise the rows are packed solid rather than cores hidden.
pub open spec fn layout(n: nat, w: nat, h: nat) -> Layout {
    let min_w = label_width(n) + 4;
    let spaced_rows = (h + 1) / 2;
    let spaced = fit_cols(n, w) * spaced_rows >= n;
    let rows = if spaced {
        spaced_rows
    } else {
        h
    };
    let wanted = ceil_div(n, rows);
    let gap = fit_gap(w, min_w, wanted, LAYOUT_GAP as nat);
    let most = (w + gap) / (min_w + gap);
    let held = if wanted > most {
        most
    } else {
        wanted
    };
    let cols = if held < 1 {
        1
    } else {
        held
    };
    let each = ceil_div(n, cols);
    Layout {
        spaced,
        cols,
        gap,
        col_w: ((w - gap * (cols - 1)) / cols as int) as nat,
        per_col: if each > rows {
            rows
        } else {
            each
        },
    }
}

/// A core's number in its column.
pub open spec fn core_label(idx: nat, label_w: nat) -> Seq<char> {
    right_aligned(numeral(idx), label_w)
}

/// A core's percentage as it is shown.
pub open spec fn core_percent(v: Num) -> Seq<char> {
    right_aligned(v.fixed(0), 3) + seq!['%']
}

/// How many of `n` cells a value out of `max` fills.
pub open spec fn core_filled(v: Num, max: Num, n: nat) -> nat {
    let f = v.quotient(max).product(Num::of(n)).truncated(usize::MAX as nat);
    if f > n {
        n
    } else {
        f
    }
}

/// A single bar, `N [▐▐▐▐▐░░ 42%]`; without the percentage where it is narrow,
/// and the number alone where there is no room for a bar.
pub open spec fn core_bar_text(idx: nat, value: Num, max: Num, label_w: nat, col_w: nat) -> Seq<char> {
    let inner = col_w - label_w - 3;
    if inner < 1 {
        fitted(core_label(idx, label_w), col_w)
    } else {
        let v = value.bounded(Num::spec_zero(), max);
        let pct = core_percent(v);
        let shown = inner >= pct.len() + 4;
        let bar = (if shown {
            inner - pct.len() - 1
        } else {
            inner
        }) as nat;
        let filled = core_filled(v, max, bar);
        let label = Style::ink(GRAY);
        let on = Style::ink(load_light(v));
        let body = label.rendered(core_label(idx, label_w) + seq![' ']) + label.rendered("["@) + on.rendered(
            tiled(BAR_FILLED@, filled),
        ) + label.rendered(tiled(BAR_EMPTY@, (bar - filled) as nat));
        (if shown {
            body + seq![' '] + on.rendered(pct)
        } else {
            body
        }) + label.rendered("]"@)
    }
}

/// The first `cols` bars of a row.
pub open spec fn bar_row(data: Seq<Num>, max: Num, l: Layout, row: nat, cols: nat) -> Seq<char>
    decreases cols,
{
    if cols == 0 {
        seq![]
    } else {
        let before = bar_row(data, max, l, row, (cols - 1) as nat);
        let i = (cols - 1) * l.per_col + row;
        if i >= data.len() {
            before
        } else {
            (if cols > 1 {
                before + repeated(' ', l.gap)
            } else {
                before
            }) + core_bar_text(i as nat, data[i], max, label_width(data.len()), l.col_w)
        }
    }
}

/// The `k`-th line of the bars.
pub open spec fn bar_line(data: Seq<Num>, max: Num, l: Layout, k: int) -> Seq<char> {
    if l.spaced {
        if k % 2 == 0 && k / 2 < l.per_col {
            bar_row(data, max, l, (k / 2) as nat, l.cols)
        } else {
            seq![]
        }
    } else if k < l.per_col {
        bar_row(data, max, l, k as nat, l.cols)
    } else {
        seq![]
    }
}

fn label_len(n: usize) -> (r: usize)
    ensures
        r == label_width(n as nat),
        1 <= r <= 20,
{
    let last: usize = if n == 0 {
        0
    } else {
        n - 1
    };
    let r: usize = crate::chars::chars_of(numeral_of(last as u64).as_str()).len();
    proof {
        lemma_twenty_digits();
        lemma_numeral_width(last as nat, 20);
    }
    r
}

proof fn lemma_twenty_digits()
    ensures
        vstd::arithmetic::power::pow(10, 20) > u64::MAX,
{
    let p5 = vstd::arithmetic::power::pow(10, 5);
    let p10 = vstd::arithmetic::power::pow(10, 10);
    reveal_with_fuel(vstd::arithmetic::power::pow, 6);
    assert(p5 == 100_000);
    vstd::arithmetic::power::lemma_pow_adds(10, 5, 5);
    assert(p10 == 10_000_000_000) by (nonlinear_arith)
        requires
            p5 == 100_000,
            p10 == p5 * p5,
    ;
    vstd::arithmetic::power::lemma_pow_adds(10, 10, 10);
    assert(p10 * p10 > 0xffff_ffff_ffff_ffff) by (nonlinear_arith)
        requires
            p10 == 10_000_000_000,
    ;
}

/// A number below 10^k has at most `k` digits.
proof fn lemma_numeral_width(n: nat, k: nat)
    requires
        1 <= k <= 20,
        n < vstd::arithmetic::power::pow(10, k),
    ensures
        1 <= numeral(n).len() <= k,
    decreases k,
{
    vstd::arithmetic::power::lemma_pow1(10);
    if n >= 10 {
        vstd::arithmetic::power::lemma_pow_adds(10, (k - 1) as nat, 1);
        assert(n / 10 < vstd::arithmetic::power::pow(10, (k - 1) as nat)) by (nonlinear_arith)
            requires
                n < vstd::arithmetic::power::pow(10, (k - 1) as nat) * 10,
        ;
        lemma_numeral_width(n / 10, (k - 1) as nat);
    }
}

/// A greater number has no fewer digits.
proof fn lemma_numeral_grows(i: nat, j: nat)
    requires
        i <= j,
    ensures
        numeral(i).len() <= numeral(j).len(),
    decreases j,
{
    if j >= 10 {
        lemma_numeral_grows(if i >= 10 {
            i / 10
        } else {
            0
        }, j / 10);
    }
}

/// How many core-bar columns fit in `w` at the preferred gap with a usable bar.
pub fn core_bars_fit_cols(n: usize, w: usize) -> (r: usize)
    requires
        w + LAYOUT_GAP <= usize::MAX,
    ensures
        r == fit_cols(n as nat, w as nat),
        1 <= r <= w + LAYOUT_GAP,
{
    let label_w: usize = label_len(n);
    let cols: usize = (w + LAYOUT_GAP) / (label_w + 7 + LAYOUT_GAP);
    if cols < 1 {
        1
    } else {
        cols
    }
}

/// The line count at which [`render_core_bars`] affords its spaced layout for
/// `n` cores in width `w`.
pub fn core_bars_spaced_height(n: usize, w: usize) -> (r: usize)
    requires
        n >= 1,
        2 * n <= usize::MAX,
        n + w + LAYOUT_GAP <= usize::MAX,
    ensures
        r == spaced_height(n as nat, w as nat),
        1 <= r < 2 * n,
{
    let cols: usize = core_bars_fit_cols(n, w);
    let rows: usize = (n + (cols - 1)) / cols;
    proof {
        lemma_ceil(n as nat, cols as nat);
    }
    rows * 2 - 1
}

/// Rounding up keeps between the number and one.
proof fn lemma_ceil(n: nat, d: nat)
    requires
        n >= 1,
        d >= 1,
    ensures
        1 <= ceil_div(n, d) <= n,
        ceil_div(n, d) * d >= n,
        (ceil_div(n, d) - 1) * d < n,
{
    let q = (n + d - 1) / d as int;
    vstd::arithmetic::div_mod::lemma_fundamental_div_mod(n + d - 1, d as int);
    let r = (n + d - 1) % d as int;
    assert(1 <= q <= n && q * d >= n && (q - 1) * d < n) by (nonlinear_arith)
        requires
            n + d - 1 == d * q + r,
            0 <= r < d,
            n >= 1,
            d >= 1,
    ;
}

/// Renders a single bar, exactly `col_w` cells wide for a number of at most
/// `label_w` digits.
fn core_bar(idx: usize, value: Num, max_val: Num, label_w: usize, col_w: usize) -> (r: String)
    requires
        max_val.at_least(Num::spec_zero()),
        label_w <= 20,
    ensures
        r@ == core_bar_text(idx as nat, value, max_val, label_w as nat, col_w as nat),
        numeral(idx as nat).len() <= label_w ==> plain_line(r@, col_w as nat),
{
    let label = left_pad(numeral_of(idx as u64).as_str(), label_w);
    proof {
        lemma_numeral_digits(idx as nat);
        assert(unit_cells(label@));
    }
    if col_w < label_w + 4 {
        let out = pad_truncate(label.as_str(), col_w);
        proof {
            assert(unit_cells(out@));
            lemma_plain_text(out@);
        }
        return out;
    }
    let inner: usize = col_w - label_w - 3;
    let v = value.clamped(Num::zero(), max_val);
    let mut pct = left_pad(v.to_fixed(0).as_str(), 3);
    pct.push('%');
    proof {
        assert(pct@ =~= core_percent(v));
    }
    let pct_len: usize = crate::chars::chars_of(pct.as_str()).len();
    let shown = inner >= 4 && inner - 4 >= pct_len;
    let bar: usize = if shown {
        inner - pct_len - 1
    } else {
        inner
    };
    let f: usize = v.over(max_val).times(Num::from_u64(bar as u64)).to_usize();
    let filled: usize = if f > bar {
        bar
    } else {
        f
    };
    let gray = Style::new().fg(GRAY);
    let on = Style::new().fg(load_color(v));
    let mut head = label.clone();
    head.push(' ');
    proof {
        assert(head@ =~= core_label(idx as nat, label_w as nat) + seq![' ']);
    }
    let mut b = gray.render(head.as_str());
    b.append(gray.render("[").as_str());
    b.append(on.render(repeat(BAR_FILLED, filled).as_str()).as_str());
    b.append(gray.render(repeat(BAR_EMPTY, bar - filled).as_str()).as_str());
    let ghost body = b@;
    if shown {
        b.push(' ');
        b.append(on.render(pct.as_str()).as_str());
        proof {
            assert(body.push(' ') =~= body + seq![' ']);
        }
    }
    let ghost most = b@;
    b.append(gray.render("]").as_str());
    proof {
        if numeral(idx as nat).len() <= label_w {
            lemma_fixed_cells(v, 0);
            assert(unit_cells(pct@));
            reveal_strlit("[");
            reveal_strlit("]");
            lemma_bar_cells(filled as nat);
            lemma_bar_cells((bar - filled) as nat);
            assert(unit_cells(head@));
            lemma_plain_text(head@);
            lemma_plain_render(gray, head@, (label_w + 1) as nat);
            lemma_plain_text("["@);
            lemma_plain_render(gray, "["@, 1);
            lemma_plain_text(tiled(BAR_FILLED@, filled as nat));
            lemma_plain_render(on, tiled(BAR_FILLED@, filled as nat), filled as nat);
            lemma_plain_text(tiled(BAR_EMPTY@, (bar - filled) as nat));
            lemma_plain_render(gray, tiled(BAR_EMPTY@, (bar - filled) as nat), (bar - filled) as nat);
            lemma_plain_text("]"@);
            lemma_plain_render(gray, "]"@, 1);
            let s1 = gray.rendered(head@);
            let s2 = s1 + gray.rendered("["@);
            lemma_plain_join(s1, (label_w + 1) as nat, gray.rendered("["@), 1);
            let s3 = s2 + on.rendered(tiled(BAR_FILLED@, filled as nat));
            lemma_plain_join(s2, (label_w + 2) as nat, on.rendered(tiled(BAR_FILLED@, filled as nat)), filled as nat);
            lemma_plain_join(
                s3,
                (label_w + 2 + filled) as nat,
                gray.rendered(tiled(BAR_EMPTY@, (bar - filled) as nat)),
                (bar - filled) as nat,
            );
            assert(plain_line(body, (label_w + 2 + bar) as nat));
            if shown {
                lemma_plain_text(seq![' ']);
                lemma_plain_join(body, (label_w + 2 + bar) as nat, seq![' '], 1);
                lemma_plain_text(pct@);
                lemma_plain_render(on, pct@, pct@.len());
                lemma_plain_join(body + seq![' '], (label_w + 3 + bar) as nat, on.rendered(pct@), pct@.len());
                lemma_plain_join(most, (label_w + 3 + bar + pct@.len()) as nat, gray.rendered("]"@), 1);
            } else {
                lemma_plain_join(most, (label_w + 2 + bar) as nat, gray.rendered("]"@), 1);
            }
        }
    }
    b
}

/// The numbers of a layout.
struct Plan {
    spaced: bool,
    cols: usize,
    gap: usize,
    col_w: usize,
    per_col: usize,
}

impl Plan {
    spec fn is(self, l: Layout) -> bool {
        self.spaced == l.spaced && self.cols == l.cols && self.gap == l.gap && self.col_w == l.col_w && self.per_col
            == l.per_col
    }
}

/// Columns that fit leave room for the gaps between them.
proof fn lemma_gaps_fit(w: nat, min_w: nat, gap: nat, cols: nat)
    requires
        cols >= 1,
        min_w >= 1,
        cols == 1 || cols <= (w + gap) / (min_w + gap),
    ensures
        gap * (cols - 1) <= w,
{
    if cols == 1 {
        assert(gap * 0 == 0) by (nonlinear_arith);
    } else {
        let q = (w + gap) / (min_w + gap);
        vstd::arithmetic::div_mod::lemma_fundamental_div_mod((w + gap) as int, (min_w + gap) as int);
        let r = (w + gap) % (min_w + gap);
        assert(gap * (cols - 1) <= w) by (nonlinear_arith)
            requires
                w + gap == (min_w + gap) * q + r,
                r >= 0,
                cols <= q,
                cols >= 1,
                min_w >= 1,
        ;
    }
}

/// How wide `cols` columns are with the gaps between them.
spec fn row_cells(l: Layout, cols: nat) -> nat {
    if cols == 0 {
        0
    } else {
        (cols * l.col_w + l.gap * (cols - 1)) as nat
    }
}

/// One more column takes its width, and a gap unless it is the first.
proof fn lemma_row_cells(l: Layout, cols: nat)
    ensures
        row_cells(l, cols + 1) == row_cells(l, cols) + l.col_w + (if cols > 0 {
            l.gap
        } else {
            0
        }),
{
    assert((cols + 1) * l.col_w == cols * l.col_w + l.col_w) by (nonlinear_arith);
    if cols > 0 {
        assert(l.gap * cols == l.gap * (cols - 1) + l.gap) by (nonlinear_arith);
        assert(cols * l.col_w >= 0 && l.gap * (cols - 1) >= 0) by (nonlinear_arith)
            requires
                cols >= 1,
        ;
    } else {
        assert(l.gap * 0 == 0 && 0 * l.col_w == 0) by (nonlinear_arith);
    }
}

/// Fewer columns are no wider.
proof fn lemma_row_cells_grow(l: Layout, a: nat, b: nat)
    requires
        a <= b,
    ensures
        row_cells(l, a) <= row_cells(l, b),
    decreases b,
{
    if a < b {
        lemma_row_cells_grow(l, a, (b - 1) as nat);
        lemma_row_cells(l, (b - 1) as nat);
    }
}

/// Columns that share the width between the gaps fill no more than it.
proof fn lemma_columns_fit(w: nat, gap: nat, cols: nat)
    requires
        cols >= 1,
        gap * (cols - 1) <= w,
    ensures
        cols * ((w - gap * (cols - 1)) / cols as int) + gap * (cols - 1) <= w,
{
    vstd::arithmetic::div_mod::lemma_fundamental_div_mod(w - gap * (cols - 1), cols as int);
}

/// A quotient rounded up.
fn div_up(n: usize, d: usize) -> (r: usize)
    requires
        n >= 1,
        d >= 1,
        n + d <= usize::MAX,
    ensures
        r == ceil_div(n as nat, d as nat),
        1 <= r <= n,
{
    proof {
        lemma_ceil(n as nat, d as nat);
    }
    (n + (d - 1)) / d
}

/// Whether every core fits into `rows` rows at the preferred gap.
fn fits_in_rows(n: usize, w: usize, rows: usize) -> (r: bool)
    requires
        w + LAYOUT_GAP <= usize::MAX,
    ensures
        r == (fit_cols(n as nat, w as nat) * rows as nat >= n),
{
    let fit: u128 = core_bars_fit_cols(n, w) as u128;
    let m: u128 = rows as u128;
    proof {
        assert(fit * m <= 0xffff_ffff_ffff_ffff * 0xffff_ffff_ffff_ffff) by (nonlinear_arith)
            requires
                fit <= 0xffff_ffff_ffff_ffff,
                m <= 0xffff_ffff_ffff_ffff,
        ;
    }
    fit * m >= n as u128
}

/// The widest gap at which the wanted columns fit.
fn choose_gap(w: usize, min_w: usize, wanted: usize) -> (r: usize)
    requires
        w + LAYOUT_GAP <= usize::MAX,
        1 <= min_w <= 24,
    ensures
        r == fit_gap(w as nat, min_w as nat, wanted as nat, LAYOUT_GAP as nat),
        1 <= r <= LAYOUT_GAP,
{
    let mut gap: usize = LAYOUT_GAP;
    while gap > 1 && (w + gap) / (min_w + gap) < wanted
        invariant
            1 <= gap <= LAYOUT_GAP,
            w + LAYOUT_GAP <= usize::MAX,
            1 <= min_w <= 24,
            fit_gap(w as nat, min_w as nat, wanted as nat, LAYOUT_GAP as nat) == fit_gap(
                w as nat,
                min_w as nat,
                wanted as nat,
                gap as nat,
            ),
        decreases gap,
    {
        gap = gap - 1;
    }
    gap
}

fn plan(n: usize, w: usize, h: usize) -> (r: Plan)
    requires
        n >= 1,
        w >= 1,
        h >= 1,
        n + h <= usize::MAX,
        2 * n <= usize::MAX,
        n + w + 8 <= usize::MAX,
    ensures
        r.is(layout(n as nat, w as nat, h as nat)),
        1 <= r.per_col <= n,
        r.cols >= 1,
        row_cells(layout(n as nat, w as nat, h as nat), r.cols as nat) <= w,
{
    let min_w: usize = label_len(n) + 4;
    let spaced_rows: usize = h / 2 + h % 2;
    let spaced = fits_in_rows(n, w, spaced_rows);
    let rows: usize = if spaced {
        spaced_rows
    } else {
        h
    };
    let wanted: usize = div_up(n, rows);
    let gap: usize = choose_gap(w, min_w, wanted);
    let most: usize = (w + gap) / (min_w + gap);
    let mut cols: usize = wanted;
    if cols > most {
        cols = most;
    }
    if cols < 1 {
        cols = 1;
    }
    proof {
        lemma_gaps_fit(w as nat, min_w as nat, gap as nat, cols as nat);
        lemma_columns_fit(w as nat, gap as nat, cols as nat);
    }
    let col_w: usize = (w - gap * (cols - 1)) / cols;
    let mut per_col: usize = div_up(n, cols);
    if per_col > rows {
        per_col = rows;
    }
    Plan { spaced, cols, gap, col_w, per_col }
}

/// Columns past the last bar add nothing.
proof fn lemma_row_done(data: Seq<Num>, max: Num, l: Layout, row: nat, done: nat, cols: nat)
    requires
        done <= cols,
        done * l.per_col + row >= data.len(),
    ensures
        bar_row(data, max, l, row, cols) == bar_row(data, max, l, row, done),
    decreases cols,
{
    if done < cols {
        lemma_row_done(data, max, l, row, done, (cols - 1) as nat);
        assert((cols - 1) * l.per_col >= done * l.per_col) by (nonlinear_arith)
            requires
                cols - 1 >= done,
                l.per_col >= 0,
        ;
    }
}

fn render_row(data: &Vec<Num>, max_val: Num, p: &Plan, label_w: usize, row: usize, Ghost(l): Ghost<Layout>) -> (r: String)
    requires
        p.is(l),
        max_val.at_least(Num::spec_zero()),
        label_w == label_width(data@.len()),
        label_w <= 20,
        2 * data@.len() <= usize::MAX,
        p.per_col <= data@.len(),
    ensures
        r@ == bar_row(data@, max_val, l, row as nat, l.cols),
        exists|n: nat| n <= row_cells(l, l.cols) && #[trigger] plain_line(r@, n),
{
    let n: usize = data.len();
    let mut out = String::new();
    let mut col: usize = 0;
    let mut base: usize = 0;
    proof {
        assert(0 * l.per_col == 0) by (nonlinear_arith);
        assert(out@ =~= bar_row(data@, max_val, l, row as nat, 0));
        lemma_plain_text(out@);
    }
    while col < p.cols && base < n && row < n - base
        invariant
            col <= p.cols,
            p.is(l),
            n == data@.len(),
            base == col * l.per_col,
            base <= 2 * n,
            2 * n <= usize::MAX,
            p.per_col <= n,
            max_val.at_least(Num::spec_zero()),
            label_w == label_width(data@.len()),
            label_w <= 20,
            out@ == bar_row(data@, max_val, l, row as nat, col as nat),
            plain_line(out@, row_cells(l, col as nat)),
        decreases p.cols - col,
    {
        if col > 0 {
            let gap = spaces(p.gap);
            proof {
                lemma_plain_text(gap@);
                lemma_plain_join(out@, row_cells(l, col as nat), gap@, l.gap);
            }
            out.append(gap.as_str());
        }
        let bar = core_bar(base + row, data[base + row], max_val, label_w, p.col_w);
        proof {
            lemma_numeral_grows((base + row) as nat, (n - 1) as nat);
            lemma_plain_join(
                out@,
                (row_cells(l, col as nat) + if col > 0 {
                    l.gap
                } else {
                    0
                }) as nat,
                bar@,
                l.col_w,
            );
            lemma_row_cells(l, col as nat);
        }
        out.append(bar.as_str());
        proof {
            assert((col + 1) * l.per_col == col * l.per_col + l.per_col) by (nonlinear_arith);
        }
        base = base + p.per_col;
        col = col + 1;
    }
    proof {
        if col < p.cols {
            lemma_row_done(data@, max_val, l, row as nat, col as nat, l.cols);
        }
        lemma_row_cells_grow(l, col as nat, l.cols);
        assert(plain_line(out@, row_cells(l, col as nat)));
    }
    out
}

/// Renders one horizontal bar per CPU core into `h` lines of at most `w` cells.
/// When there are more cores than rows, bars wrap into columns.
pub fn render_core_bars(data: &Vec<Num>, max_val: Num, w: usize, h: usize) -> (r: Vec<String>)
    requires
        max_val.at_least(Num::spec_zero()),
        2 * data@.len() <= usize::MAX,
        data@.len() + h <= usize::MAX,
        data@.len() + w + 8 <= usize::MAX,
    ensures
        data@.len() == 0 || h < 1 || w < 1 ==> r@.len() == 0,
        data@.len() > 0 && h >= 1 && w >= 1 ==> r@.len() == h && forall|k: int|
            0 <= k < h ==> (#[trigger] r@[k])@ == bar_line(data@, max_val, layout(data@.len(), w as nat, h as nat), k),
        forall|k: int| 0 <= k < r@.len() ==> visible((#[trigger] r@[k])@) <= w,
{
    let n: usize = data.len();
    let mut lines: Vec<String> = Vec::new();
    if n == 0 || h < 1 || w < 1 {
        return lines;
    }
    let ghost l = layout(n as nat, w as nat, h as nat);
    let p = plan(n, w, h);
    let label_w: usize = label_len(n);
    let mut k: usize = 0;
    while k < h
        invariant
            k <= h,
            n == data@.len(),
            p.is(l),
            p.per_col <= n,
            max_val.at_least(Num::spec_zero()),
            label_w == label_width(data@.len()),
            label_w <= 20,
            2 * n <= usize::MAX,
            lines@.len() == k,
            row_cells(l, l.cols) <= w,
            forall|j: int| 0 <= j < k ==> (#[trigger] lines@[j])@ == bar_line(data@, max_val, l, j),
            forall|j: int| 0 <= j < k ==> visible((#[trigger] lines@[j])@) <= w,
        decreases h - k,
    {
        let line = if p.spaced {
            if k % 2 == 0 && k / 2 < p.per_col {
                render_row(data, max_val, &p, label_w, k / 2, Ghost(l))
            } else {
                String::new()
            }
        } else if k < p.per_col {
            render_row(data, max_val, &p, label_w, k, Ghost(l))
        } else {
            String::new()
        };
        let used: usize = width(line.as_str());
        proof {
            assert(line@ =~= bar_line(data@, max_val, l, k as int));
            if line@.len() == 0 {
                lemma_plain_text(line@);
            }
            assert(used <= w);
        }
        lines.push(line);
        k = k + 1;
    }
    lines
}

/// The spaced layout is used exactly from its height on.
pub proof fn lemma_spaced_from_height(n: nat, w: nat, h: nat)
    requires
        n >= 1,
        h >= 1,
    ensures
        layout(n, w, h).spaced <==> h >= spaced_height(n, w),
{
    let cols = fit_cols(n, w);
    let rows = (h + 1) / 2;
    let need = ceil_div(n, cols);
    lemma_ceil(n, cols);
    if rows >= need {
        assert(cols * rows >= n) by (nonlinear_arith)
            requires
                rows >= need,
                need * cols >= n,
                cols >= 0,
        ;
    } else {
        assert(cols * rows < n) by (nonlinear_arith)
            requires
                rows <= need - 1,
                (need - 1) * cols < n,
                cols >= 1,
        ;
    }
}

/// How many columns fit in `w` cells at the narrowest gap; at least one.
pub open spec fn most_cols(n: nat, w: nat) -> nat {
    let cols = (w + 1) / (label_width(n) + 5);
    if cols < 1 {
        1
    } else {
        cols
    }
}

/// A gap at which the wanted columns fit is found where there is one.
proof fn lemma_gap_found(w: nat, min_w: nat, cols: nat, gap: nat)
    requires
        gap >= 1,
        min_w >= 1,
        (w + 1) / (min_w + 1) >= cols,
    ensures
        fit_gap(w, min_w, cols, gap) >= 1,
        (w + fit_gap(w, min_w, cols, gap)) / (min_w + fit_gap(w, min_w, cols, gap)) >= cols,
    decreases gap,
{
    if gap > 1 && (w + gap) / (min_w + gap) < cols {
        lemma_gap_found(w, min_w, cols, (gap - 1) as nat);
    }
}

/// Rows enough for the wanted columns hold all bars.
proof fn lemma_columns_hold(n: nat, rows: nat, cols: nat)
    requires
        n >= 1,
        rows >= 1,
        cols == ceil_div(n, rows),
    ensures
        1 <= ceil_div(n, cols) <= rows,
        cols * ceil_div(n, cols) >= n,
{
    lemma_ceil(n, rows);
    lemma_ceil(n, cols);
    let each = ceil_div(n, cols);
    assert(each <= rows) by (nonlinear_arith)
        requires
            (each - 1) * cols < n,
            cols * rows >= n,
            cols >= 1,
    ;
    assert(cols * each >= n) by (nonlinear_arith)
        requires
            each * cols >= n,
    ;
}

/// The wanted columns fit wherever the narrowest ones do.
proof fn lemma_wanted_fit(n: nat, w: nat, h: nat)
    requires
        n >= 1,
        h >= 1,
        n <= h * most_cols(n, w),
    ensures
        ({
            let l = layout(n, w, h);
            let rows = if l.spaced {
                (h + 1) / 2
            } else {
                h
            };
            l.cols == ceil_div(n, rows)
        }),
{
    let min_w = label_width(n) + 4;
    let spaced_rows = (h + 1) / 2;
    let fit = fit_cols(n, w);
    let spaced = fit * spaced_rows >= n;
    let rows = if spaced {
        spaced_rows
    } else {
        h
    };
    let wanted = ceil_div(n, rows);
    lemma_ceil(n, rows);
    let room = if spaced {
        fit
    } else {
        most_cols(n, w)
    };
    assert(rows * room == room * rows) by (nonlinear_arith);
    assert(wanted <= room) by (nonlinear_arith)
        requires
            (wanted - 1) * rows < n,
            n <= rows * room,
            rows >= 1,
    {
        assert((wanted - 1) * rows < room * rows);
    }
    if wanted > 1 {
        if spaced {
            assert(fit == (w + LAYOUT_GAP as nat) / (min_w + 6));
            lemma_narrower(w + LAYOUT_GAP as nat, min_w + 3, min_w + 6);
            assert((w + 3) / (min_w + 3) >= wanted);
            assert(fit_gap(w, min_w, wanted, 3) == 3);
        } else {
            lemma_gap_found(w, min_w, wanted, LAYOUT_GAP as nat);
        }
    }
}

/// More columns fit where they are narrower.
proof fn lemma_narrower(w: nat, a: nat, b: nat)
    requires
        1 <= a <= b,
    ensures
        w / a >= w / b,
{
    vstd::arithmetic::div_mod::lemma_div_is_ordered_by_denominator(w as int, a as int, b as int);
}

/// Every core stays visible as long as columns of the least width hold them
/// all: core `i` has its bar in column `i / per_col`, on a line of the panel.
pub proof fn lemma_every_core_shown(n: nat, w: nat, h: nat, i: nat)
    requires
        i < n,
        h >= 1,
        n <= h * most_cols(n, w),
    ensures
        ({
            let l = layout(n, w, h);
            let col = i / l.per_col;
            let row = i % l.per_col;
            let line = if l.spaced {
                2 * row
            } else {
                row
            };
            &&& l.per_col >= 1
            &&& col < l.cols
            &&& row < l.per_col
            &&& col * l.per_col + row == i
            &&& line < h
            &&& forall|data: Seq<Num>, max: Num| #[trigger]
                bar_line(data, max, l, line as int) == bar_row(data, max, l, row, l.cols)
        }),
{
    let l = layout(n, w, h);
    let rows = if l.spaced {
        (h + 1) / 2
    } else {
        h
    };
    lemma_wanted_fit(n, w, h);
    lemma_columns_hold(n, rows, l.cols);
    assert(l.per_col == ceil_div(n, l.cols));
    vstd::arithmetic::div_mod::lemma_fundamental_div_mod(i as int, l.per_col as int);
    let col = i / l.per_col;
    let row = i % l.per_col;
    assert(col < l.cols && col * l.per_col + row == i) by (nonlinear_arith)
        requires
            i == l.per_col * col + row,
            row >= 0,
            l.per_col >= 1,
            i < n,
            l.cols * l.per_col >= n,
    ;
}

/// A core's bar is filled in proportion: of `n` cells a value out of `max` fills
/// `v / max * n`, cut to whole cells, up to what rounding moves. Nothing fills
/// none, and the whole fills all.
pub proof fn lemma_core_proportional(v: Num, max: Num, n: nat)
    requires
        v.finite(),
        max.finite(),
        !v.negative(),
        max.value() > 0 as real,
        v.value() <= max.value(),
        1 <= n <= 0x1000_0000,
    ensures
        ({
            let exact = v.value() / max.value() * n as real;
            let slack = n as real / 0x1_0000_0000_0000 as real;
            &&& core_filled(v, max, n) as real <= exact + slack
            &&& exact < core_filled(v, max, n) as real + 1 as real + slack
        }),
        v.value() == 0 as real ==> core_filled(v, max, n) == 0,
        v.value() == max.value() ==> core_filled(v, max, n) == n,
{
    lemma_part_value(v, max, n);
    lemma_sign_of_value(v);
    let z = v.quotient(max).product(Num::of(n));
    let e = grain();
    let nr = n as real;
    let x = v.value() / max.value() * nr;
    assert(x >= 0 as real && x <= nr) by (nonlinear_arith)
        requires
            x == v.value() / max.value() * nr,
            v.value() >= 0 as real,
            v.value() <= max.value(),
            max.value() > 0 as real,
            nr >= 1 as real,
    {
        let y = v.value() / max.value();
        assert(y >= 0 as real && y <= 1 as real);
        assert(y * nr <= nr);
    }
    assert(nr * (8 as real * e) <= nr / 0x1_0000_0000_0000 as real && nr * (8 as real * e) <= 1 as real)
        by (nonlinear_arith)
        requires
            nr >= 1 as real,
            nr <= 0x1000_0000 as real,
            e == 1 as real / 0x20_0000_0000_0000 as real,
    ;
    lemma_truncated_value(z);
    let w = z.truncated(u64::MAX as nat);
    assert(w == z.whole());
    assert(core_filled(v, max, n) == if w > n {
        n
    } else {
        w
    });
}

/// Cores go down the columns: in each row the bar of the next column, a gap
/// away, is that of the core a column's height further on.
pub proof fn lemma_cores_down_columns(data: Seq<Num>, max: Num, l: Layout, row: nat, col: nat)
    requires
        col * l.per_col + row < data.len(),
    ensures
        bar_row(data, max, l, row, col + 1) == bar_row(data, max, l, row, col) + repeated(
            ' ',
            if col > 0 {
                l.gap
            } else {
                0
            },
        ) + core_bar_text(
            col * l.per_col + row,
            data[(col * l.per_col + row) as int],
            max,
            numeral((data.len() - 1) as nat).len(),
            l.col_w,
        ),
{
    if col == 0 {
        assert(bar_row(data, max, l, row, 0) =~= seq![]);
        assert(repeated(' ', 0) =~= seq![]);
        assert(0 * l.per_col == 0);
    }
    assert(bar_row(data, max, l, row, col + 1) =~= bar_row(data, max, l, row, col) + repeated(
        ' ',
        if col > 0 {
            l.gap
        } else {
            0
        },
    ) + core_bar_text(
        col * l.per_col + row,
        data[(col * l.per_col + row) as int],
        max,
        numeral((data.len() - 1) as nat).len(),
        l.col_w,
    ));
}

} // verus!
