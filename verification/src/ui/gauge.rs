//! htop-style meter rows: label, segmented bar, percentage and dim detail.

use super::screen::{clipped, truncate_width};
use crate::num::value::{
    grain, lemma_of_value, lemma_part_value, lemma_quotient_value, lemma_sign_of_value, lemma_speck, lemma_sum_value,
    lemma_truncated_value, lemma_vast, size, speck,
};
use crate::num::Num;
use crate::style::{
    lemma_plain_join, lemma_plain_render, lemma_plain_text, plain_line, unit_cells, visible, width,
    Style, GRAY,
};
use crate::text::{
    clamp_percent, cut, fitted, left_pad, lemma_bar_cells, lemma_fixed_cells, pad_line, pad_truncate, padded, percent_bounded, repeat, right_aligned,
    tiled, truncate_runes, BAR_EMPTY, BAR_FILLED,
};
use vstd::prelude::*;
use vstd::string::StringExecFns;

verus! {

pub const METER_BAR_CAP: usize = 40;

pub const METER_BAR_MIN: usize = 10;

pub const DETAIL_RESERVE: usize = 32;

/// The longest label plus one space.
pub const LABEL_W: usize = 5;

/// The number one half.
pub open spec fn half() -> Num {
    Num::of(1).quotient(Num::of(2))
}

/// How many of `n` cells a percentage fills, rounded to the nearest.
pub open spec fn filled_cells(percent: Num, n: nat) -> nat {
    let f = percent.quotient(Num::of(100)).product(Num::of(n)).sum(half()).truncated(usize::MAX as nat);
    if f > n {
        n
    } else {
        f
    }
}

/// How many of `n` cells a percentage fills, rounded to the nearest.
pub fn fill(percent: Num, n: usize) -> (r: usize)
    ensures
        r == filled_cells(percent, n as nat),
        r <= n,
{
    let h = Num::from_u64(1).over(Num::from_u64(2));
    let f: usize = percent.over(Num::from_u64(100)).times(Num::from_u64(n as u64)).plus(h).to_usize();
    if f > n {
        n
    } else {
        f
    }
}

/// A percentage as it is shown, one digit behind the point.
pub open spec fn percent_text(p: Num) -> Seq<char> {
    right_aligned(p.fixed(1), 5) + seq!['%']
}

/// The width of the bar in a row of `w` cells, beside a percentage of `pct`
/// characters. Room for the detail is set aside up front, so a packed layout
/// shrinks the bar instead of dropping the detail.
pub open spec fn bar_width(w: int, pct: int) -> int {
    let room = w - LABEL_W - pct - 4;
    let kept = if room > METER_BAR_MIN {
        if room - DETAIL_RESERVE < METER_BAR_MIN {
            METER_BAR_MIN as int
        } else {
            room - DETAIL_RESERVE
        }
    } else {
        room
    };
    if kept > METER_BAR_CAP {
        METER_BAR_CAP as int
    } else {
        kept
    }
}

/// A meter without its detail.
pub open spec fn meter_head(label: Seq<char>, p: Num, color: u8, bar: nat) -> Seq<char> {
    let c = Style::ink(color);
    let filled = filled_cells(p, bar);
    c.strong().rendered(fitted(label, LABEL_W as nat)) + c.rendered("["@) + c.rendered(tiled(BAR_FILLED@, filled))
        + Style::ink(GRAY).rendered(tiled(BAR_EMPTY@, (bar - filled) as nat)) + c.rendered("]"@) + "  "@ + c.rendered(
        percent_text(p),
    )
}

/// A meter row: label, brackets, filled segments and percentage share the
/// metric's color; unfilled segments and the detail are dim. A row too narrow
/// for a bar shows label and value only, as far as they fit.
#[verifier::opaque]
pub open spec fn meter_text(label: Seq<char>, detail: Seq<char>, percent: Num, color: u8, w: nat) -> Seq<char> {
    let p = percent_bounded(percent);
    let c = Style::ink(color);
    let bar = bar_width(w as int, percent_text(p).len() as int);
    if bar < 3 {
        padded(clipped(c.strong().rendered(fitted(label, LABEL_W as nat)) + c.rendered(percent_text(p)), w), w)
    } else {
        let head = meter_head(label, p, color, bar as nat);
        let avail = w - visible(head) - 2;
        padded(
            if detail.len() > 0 && avail > 3 {
                head + "  "@ + Style::ink(GRAY).rendered(cut(detail, avail as nat))
            } else {
                head
            },
            w,
        )
    }
}

/// Fitting keeps one-cell characters.
pub proof fn lemma_fitted_cells(s: Seq<char>, w: nat)
    requires
        unit_cells(s),
    ensures
        unit_cells(fitted(s, w)),
        fitted(s, w).len() == w,
{
}

proof fn lemma_head_cells(label: Seq<char>, p: Num, color: u8, bar: nat)
    requires
        unit_cells(label),
        unit_cells(percent_text(p)),
    ensures
        plain_line(meter_head(label, p, color, bar), (LABEL_W + bar + 4 + percent_text(p).len()) as nat),
{
    let c = Style::ink(color);
    let filled = filled_cells(p, bar);
    reveal_strlit("[");
    reveal_strlit("]");
    reveal_strlit("  ");
    let a = fitted(label, LABEL_W as nat);
    lemma_fitted_cells(label, LABEL_W as nat);
    lemma_plain_text(a);
    lemma_plain_render(c.strong(), a, a.len());
    lemma_plain_text("["@);
    lemma_plain_render(c, "["@, 1);
    lemma_bar_cells(filled);
    lemma_bar_cells((bar - filled) as nat);
    lemma_plain_text(tiled(BAR_FILLED@, filled));
    lemma_plain_render(c, tiled(BAR_FILLED@, filled), filled);
    lemma_plain_text(tiled(BAR_EMPTY@, (bar - filled) as nat));
    lemma_plain_render(Style::ink(GRAY), tiled(BAR_EMPTY@, (bar - filled) as nat), (bar - filled) as nat);
    lemma_plain_text("]"@);
    lemma_plain_render(c, "]"@, 1);
    lemma_plain_text("  "@);
    lemma_plain_text(percent_text(p));
    lemma_plain_render(c, percent_text(p), percent_text(p).len());
    let s1 = c.strong().rendered(a);
    let s2 = s1 + c.rendered("["@);
    lemma_plain_join(s1, LABEL_W as nat, c.rendered("["@), 1);
    let s3 = s2 + c.rendered(tiled(BAR_FILLED@, filled));
    lemma_plain_join(s2, (LABEL_W + 1) as nat, c.rendered(tiled(BAR_FILLED@, filled)), filled);
    let s4 = s3 + Style::ink(GRAY).rendered(tiled(BAR_EMPTY@, (bar - filled) as nat));
    lemma_plain_join(
        s3,
        (LABEL_W + 1 + filled) as nat,
        Style::ink(GRAY).rendered(tiled(BAR_EMPTY@, (bar - filled) as nat)),
        (bar - filled) as nat,
    );
    let s5 = s4 + c.rendered("]"@);
    lemma_plain_join(s4, (LABEL_W + 1 + bar) as nat, c.rendered("]"@), 1);
    let s6 = s5 + "  "@;
    lemma_plain_join(s5, (LABEL_W + 2 + bar) as nat, "  "@, 2);
    lemma_plain_join(s6, (LABEL_W + 4 + bar) as nat, c.rendered(percent_text(p)), percent_text(p).len());
}

/// Renders one meter line, e.g. `CPU  [▐▐▐▐▐▐░░░░]  58.7%  detail`. Of one-cell
/// characters it comes out exactly `w` cells wide.
pub fn meter_row(label: &str, detail: &str, percent: Num, color: u8, w: usize) -> (r: String)
    ensures
        r@ == meter_text(label@, detail@, percent, color, w as nat),
        unit_cells(label@) && unit_cells(detail@) ==> visible(r@) == w,
{
    proof {
        reveal(meter_text);
    }
    let p = clamp_percent(percent);
    let mut pct = left_pad(p.to_fixed(1).as_str(), 5);
    pct.push('%');
    proof {
        assert(pct@ =~= percent_text(p));
        lemma_fixed_cells(p, 1);
        assert(unit_cells(pct@));
    }
    let pct_len: usize = crate::chars::chars_of(pct.as_str()).len();
    let mut bar: i128 = w as i128 - LABEL_W as i128 - pct_len as i128 - 4;
    if bar > METER_BAR_MIN as i128 {
        bar = bar - DETAIL_RESERVE as i128;
        if bar < METER_BAR_MIN as i128 {
            bar = METER_BAR_MIN as i128;
        }
    }
    if bar > METER_BAR_CAP as i128 {
        bar = METER_BAR_CAP as i128;
    }
    proof {
        assert(bar == bar_width(w as int, pct@.len() as int));
    }
    let c = Style::new().fg(color);
    if bar < 3 {
        let mut line = c.bold().render(pad_truncate(label, LABEL_W).as_str());
        line.append(c.render(pct.as_str()).as_str());
        proof {
            if unit_cells(label@) {
                let a = fitted(label@, LABEL_W as nat);
                lemma_fitted_cells(label@, LABEL_W as nat);
                lemma_plain_text(a);
                lemma_plain_render(c.strong(), a, a.len());
                lemma_plain_text(pct@);
                lemma_plain_render(c, pct@, pct@.len());
                lemma_plain_join(c.strong().rendered(a), LABEL_W as nat, c.rendered(pct@), pct@.len());
            }
        }
        let short = truncate_width(line.as_str(), w);
        let n: usize = width(short.as_str());
        proof {
            assert(unit_cells(label@) ==> n <= w);
        }
        return pad_line(short.as_str(), w);
    }
    let bar_w: usize = bar as usize;
    let filled: usize = fill(p, bar_w);
    let mut line = c.bold().render(pad_truncate(label, LABEL_W).as_str());
    line.append(c.render("[").as_str());
    line.append(c.render(repeat(BAR_FILLED, filled).as_str()).as_str());
    line.append(Style::new().fg(GRAY).render(repeat(BAR_EMPTY, bar_w - filled).as_str()).as_str());
    line.append(c.render("]").as_str());
    line.append("  ");
    line.append(c.render(pct.as_str()).as_str());
    let ghost head = line@;
    let used: usize = width(line.as_str());
    proof {
        assert(head == meter_head(label@, p, color, bar_w as nat));
        if unit_cells(label@) {
            lemma_head_cells(label@, p, color, bar_w as nat);
            assert(used == LABEL_W + bar_w + 4 + pct@.len());
        }
    }
    let avail: i128 = w as i128 - used as i128 - 2;
    if !detail.is_empty() && avail > 3 {
        let short = truncate_runes(detail, avail as usize);
        line.append("  ");
        let dimmed = Style::new().fg(GRAY).render(short.as_str());
        line.append(dimmed.as_str());
        let n: usize = width(line.as_str());
        proof {
            if unit_cells(label@) && unit_cells(detail@) {
                reveal_strlit("  ");
                lemma_plain_text("  "@);
                lemma_plain_join(head, (LABEL_W + bar_w + 4 + pct@.len()) as nat, "  "@, 2);
                assert(unit_cells(short@));
                lemma_plain_text(short@);
                lemma_plain_render(Style::ink(GRAY), short@, short@.len());
                lemma_plain_join(head + "  "@, (LABEL_W + bar_w + 6 + pct@.len()) as nat, dimmed@, short@.len());
                assert(n <= w);
            }
        }
    }
    pad_line(line.as_str(), w)
}

proof fn lemma_half()
    ensures
        half().finite(),
        !half().negative(),
        size(half().value() - 1 as real / 2 as real) <= 2 as real * grain(),
{
    lemma_of_value(1);
    lemma_of_value(2);
    lemma_vast();
    lemma_speck();
    lemma_quotient_value(Num::of(1), Num::of(2));
    let t = speck();
    let e = grain();
    assert(t <= e) by (nonlinear_arith)
        requires
            t > 0 as real,
            t * 0x1_0000_0000_0000_0000 as real * 0x1_0000_0000_0000_0000 as real <= 1 as real,
            e == 1 as real / 0x20_0000_0000_0000 as real,
    ;
}

/// A bar is filled in proportion: of `n` cells a percentage fills the number
/// nearest to `percent / 100 * n`, up to what rounding moves. Nothing fills
/// none, and a hundred percent fills all.
pub proof fn lemma_fill_proportional(percent: Num, n: nat)
    requires
        percent.finite(),
        !percent.negative(),
        percent.value() <= 100 as real,
        1 <= n <= 0x1000_0000,
    ensures
        ({
            let exact = percent.value() / 100 as real * n as real;
            let slack = n as real / 0x1_0000_0000_0000 as real;
            &&& filled_cells(percent, n) as real <= exact + 1 as real / 2 as real + slack
            &&& exact < filled_cells(percent, n) as real + 1 as real / 2 as real + slack
        }),
        percent.value() == 0 as real ==> filled_cells(percent, n) == 0,
        percent.value() == 100 as real ==> filled_cells(percent, n) == n,
{
    lemma_of_value(100);
    lemma_sign_of_value(percent);
    lemma_part_value(percent, Num::of(100), n);
    lemma_half();
    lemma_vast();
    lemma_speck();
    let p = percent.quotient(Num::of(100)).product(Num::of(n));
    let e = grain();
    let t = speck();
    let nr = n as real;
    let x = percent.value() / 100 as real * nr;
    assert(x >= 0 as real && x <= nr) by (nonlinear_arith)
        requires
            x == percent.value() / 100 as real * nr,
            percent.value() >= 0 as real,
            percent.value() <= 100 as real,
            nr >= 1 as real,
    ;
    assert(nr * (8 as real * e) == 8 as real * (nr * e)) by (nonlinear_arith);
    let off = nr * e;
    assert(off >= e && off <= 1 as real / 0x100_0000 as real && 32 as real * off == nr / 0x1_0000_0000_0000 as real)
        by (nonlinear_arith)
        requires
            off == nr * e,
            nr >= 1 as real,
            nr <= 0x1000_0000 as real,
            e == 1 as real / 0x20_0000_0000_0000 as real,
    ;
    assert(t <= e) by (nonlinear_arith)
        requires
            t > 0 as real,
            t * 0x1_0000_0000_0000_0000 as real * 0x1_0000_0000_0000_0000 as real <= 1 as real,
            e == 1 as real / 0x20_0000_0000_0000 as real,
    ;
    let y = p.value() + half().value();
    lemma_sign_of_value(p);
    assert(y >= 0 as real && y <= 3 as real * nr);
    lemma_sum_value(p, half());
    let s = p.sum(half());
    assert(size(y) * e <= 3 as real * off) by (nonlinear_arith)
        requires
            y >= 0 as real,
            y <= 3 as real * nr,
            e > 0 as real,
            off == nr * e,
    ;
    assert(size(s.value() - (x + 1 as real / 2 as real)) <= 32 as real * off);
    assert(y > 0 as real);
    assert(!s.negative());
    lemma_truncated_value(s);
    let w = s.truncated(u64::MAX as nat);
    assert(w == s.truncated_signed());
    assert(w == s.whole());
    assert(filled_cells(percent, n) == if w > n {
        n
    } else {
        w
    });
}

} // verus!
