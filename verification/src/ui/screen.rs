//! Laying out lines of styled text: clipping, joining side by side, framing
//! a full screen.

use crate::chars::{chars_of, group_texts, join, joined, joined3, repeated, string_of, texts};
use crate::scan::{pieces, pieces_after, split_at_each};
use crate::style::{
    escape_next, escape_state, escape_step, is_shown, lemma_strip_parts, plain_line, shows,
    stripped, unit_cell, unit_cells, visible, width, Escape,
};
use crate::text::{pad_line, padded, spaces};
use unicode_width::UnicodeWidthChar;
use vstd::prelude::*;
use vstd::string::StringExecFns;

verus! {

/// Columns left free at the left edge of the screen.
pub const PAD_X: usize = 2;

/// Lines left free at the top of the screen.
pub const PAD_Y: usize = 1;

/// The number of newlines in a text.
pub open spec fn newlines(s: Seq<char>) -> nat
    decreases s.len(),
{
    if s.len() == 0 {
        0
    } else {
        newlines(s.drop_last()) + (if s.last() == '\n' {
            1nat
        } else {
            0nat
        })
    }
}

/// The display lines of a (possibly multi-line) text.
pub open spec fn line_count(s: Seq<char>) -> nat {
    newlines(s) + 1
}

/// The display lines of several texts below each other.
pub open spec fn lines_of_all(rows: Seq<Seq<char>>) -> nat
    decreases rows.len(),
{
    if rows.len() == 0 {
        0
    } else {
        lines_of_all(rows.drop_last()) + line_count(rows.last())
    }
}

/// Counts the display lines in a (possibly multi-line) text.
pub fn height(s: &str) -> (r: u128)
    ensures
        r == line_count(s@),
        r <= usize::MAX + 1,
{
    let c: Vec<char> = chars_of(s);
    let mut n: usize = 0;
    let mut i: usize = 0;
    while i < c.len()
        invariant
            i <= c@.len(),
            n <= i,
            n == newlines(c@.take(i as int)),
        decreases c@.len() - i,
    {
        proof {
            assert(c@.take(i + 1).drop_last() =~= c@.take(i as int));
        }
        if c[i] == '\n' {
            n = n + 1;
        }
        i = i + 1;
    }
    proof {
        assert(c@.take(c@.len() as int) =~= s@);
    }
    n as u128 + 1
}

/// Counts the display lines of several texts below each other.
pub fn total_height(rows: &Vec<String>) -> (r: u128)
    ensures
        r == lines_of_all(texts(rows@)),
{
    let mut n: u128 = 0;
    let mut i: usize = 0;
    let ghost all = texts(rows@);
    proof {
        assert(all.take(0).len() == 0);
    }
    while i < rows.len()
        invariant
            i <= rows@.len(),
            all == texts(rows@),
            n <= i * 0x1_0000_0000_0000_0000,
            n == lines_of_all(all.take(i as int)),
        decreases rows@.len() - i,
    {
        proof {
            assert(all.take(i + 1).drop_last() =~= all.take(i as int));
            assert(all.take(i + 1).last() == rows@[i as int]@);
        }
        n = n + height(rows[i].as_str());
        i = i + 1;
    }
    proof {
        assert(all.take(all.len() as int) =~= all);
    }
    n
}

/// The cells that `UnicodeWidthChar::width` gives a character of its own;
/// none for a control character.
pub uninterp spec fn char_cells(c: char) -> Option<nat>;

/// `UnicodeWidthChar::width`: nothing for the control characters, one cell for
/// each of the characters of `unit_cell`. How many cells other characters take
/// is left to its tables.
#[verifier::external_body]
fn char_width(c: char) -> (r: Option<usize>)
    ensures
        match r {
            Some(n) => char_cells(c) == Some(n as nat),
            None => char_cells(c) is None,
        },
        r is None <==> (c < ' ' || '\x7f' <= c < '\u{a0}'),
        unit_cell(c) ==> r == Some(1usize),
{
    UnicodeWidthChar::width(c)
}

/// The cells that a character takes on its own; control characters take none.
pub open spec fn span(c: char) -> nat {
    match char_cells(c) {
        Some(n) => n,
        None => 0,
    }
}

/// The cells of the characters of a text, each on its own.
pub open spec fn spans(s: Seq<char>) -> nat
    decreases s.len(),
{
    if s.len() == 0 {
        0
    } else {
        spans(s.drop_last()) + span(s.last())
    }
}

/// The longest of the first `k` beginnings of a styled text whose visible
/// characters take at most `w` cells.
pub open spec fn clip_end(s: Seq<char>, w: nat, k: int) -> int
    decreases k,
{
    if k <= 0 {
        0
    } else if spans(stripped(s.take(k))) <= w {
        k
    } else {
        clip_end(s, w, k - 1)
    }
}

/// Whether a styled text can be cut at a place: outside control sequences, and
/// with at most `w` cells in front of it.
pub open spec fn can_cut(s: Seq<char>, w: nat, k: int) -> bool {
    escape_state(s.take(k)) != Escape::Csi && visible(s.take(k)) <= w
}

/// The last of the first `k` places at which a styled text can be cut.
/// Characters can take more cells together than each on its own.
pub open spec fn cut_place(s: Seq<char>, w: nat, k: int) -> int
    decreases k,
{
    if k <= 0 {
        0
    } else if can_cut(s, w, k) {
        k
    } else {
        cut_place(s, w, k - 1)
    }
}

/// A styled text clipped to at most `w` display cells, escape sequences up to
/// the cut kept and the style reset behind it.
pub open spec fn clipped(s: Seq<char>, w: nat) -> Seq<char> {
    if visible(s) <= w {
        s
    } else {
        s.take(cut_place(s, w, clip_end(s, w, s.len() as int))) + "\x1b[0m"@
    }
}

proof fn lemma_stripped_step(s: Seq<char>, i: int)
    requires
        0 <= i < s.len(),
    ensures
        stripped(s.take(i + 1)) == if shows(escape_state(s.take(i)), s[i]) {
            stripped(s.take(i)).push(s[i])
        } else {
            stripped(s.take(i))
        },
        escape_state(s.take(i + 1)) == escape_next(escape_state(s.take(i)), s[i]),
{
    assert(s.take(i + 1).drop_last() =~= s.take(i));
    assert(s.take(i + 1).last() == s[i]);
}

proof fn lemma_spans_push(s: Seq<char>, c: char)
    ensures
        spans(s.push(c)) == spans(s) + span(c),
{
    assert(s.push(c).drop_last() =~= s);
}

/// What does not fit does not fit with more behind it.
proof fn lemma_clip_end(s: Seq<char>, w: nat, i: int, k: int)
    requires
        0 <= i <= k <= s.len(),
        spans(stripped(s.take(i))) <= w,
        i < s.len() ==> spans(stripped(s.take(i + 1))) > w,
    ensures
        clip_end(s, w, k) == i,
        i < k ==> spans(stripped(s.take(k))) > w,
    decreases k,
{
    if k > i {
        lemma_clip_end(s, w, i, k - 1);
        lemma_stripped_step(s, k - 1);
        lemma_spans_push(stripped(s.take(k - 1)), s[k - 1]);
    }
}

/// A reset shows nothing, except at the end of a control sequence.
proof fn lemma_reset(s: Seq<char>)
    requires
        escape_state(s) != Escape::Csi,
    ensures
        stripped(s + "\x1b[0m"@) == stripped(s),
        escape_state(s + "\x1b[0m"@) == Escape::Text,
{
    reveal_strlit("\x1b[0m");
    let t = s.push('\x1b').push('[').push('0').push('m');
    assert(s + "\x1b[0m"@ =~= t);
    assert(t.drop_last() =~= s.push('\x1b').push('[').push('0'));
    assert(s.push('\x1b').push('[').push('0').drop_last() =~= s.push('\x1b').push('['));
    assert(s.push('\x1b').push('[').drop_last() =~= s.push('\x1b'));
    assert(s.push('\x1b').drop_last() =~= s);
    reveal_with_fuel(stripped, 5);
    reveal_with_fuel(escape_state, 5);
}

/// Whether a styled text can be cut at a place.
fn cuts_at(c: &Vec<char>, w: usize, k: usize) -> (r: bool)
    requires
        k <= c@.len(),
    ensures
        r == can_cut(c@, w as nat, k as int),
        k == 0 ==> r,
        escape_state(c@.take(k as int)) != Escape::Csi && unit_cells(stripped(c@.take(k as int))) && stripped(
            c@.take(k as int),
        ).len() <= w ==> r,
{
    let mut st = Escape::Text;
    let mut i: usize = 0;
    proof {
        assert(c@.take(0).len() == 0);
    }
    while i < k
        invariant
            i <= k <= c@.len(),
            st == escape_state(c@.take(i as int)),
        decreases k - i,
    {
        proof {
            lemma_stripped_step(c@, i as int);
        }
        st = escape_step(st, c[i]);
        i = i + 1;
    }
    let head = string_of(c, 0, k);
    proof {
        assert(head@ =~= c@.take(k as int));
    }
    st != Escape::Csi && width(head.as_str()) <= w
}

/// Clips a styled text to at most `w` display cells, preserving escape
/// sequences up to the cut. A line of one-cell characters comes out exactly
/// `w` cells wide, or as wide as it was.
pub fn truncate_width(s: &str, w: usize) -> (r: String)
    ensures
        r@ == clipped(s@, w as nat),
        visible(r@) <= w,
        escape_state(s@) == Escape::Text ==> escape_state(r@) == Escape::Text,
        plain_line(s@, stripped(s@).len()) ==> plain_line(
            r@,
            if stripped(s@).len() <= w {
                stripped(s@).len()
            } else {
                w as nat
            },
        ),
{
    if width(s) <= w {
        return s.to_owned();
    }
    let c: Vec<char> = chars_of(s);
    let mut cells: usize = 0;
    let mut st = Escape::Text;
    let mut i: usize = 0;
    let mut full = false;
    proof {
        assert(c@.take(0).len() == 0);
    }
    while i < c.len() && !full
        invariant
            i <= c@.len(),
            c@ == s@,
            st == escape_state(c@.take(i as int)),
            cells == spans(stripped(c@.take(i as int))),
            cells <= w,
            unit_cells(stripped(c@)) ==> cells == stripped(c@.take(i as int)).len(),
            stripped(c@.take(i as int)).len() <= stripped(c@).len(),
            forall|k: int|
                0 <= k < stripped(c@.take(i as int)).len() ==> #[trigger] stripped(c@.take(i as int))[k] == stripped(
                    c@,
                )[k],
            full ==> i < c@.len() && spans(stripped(c@.take(i + 1))) > w && shows(st, c@[i as int]) && (unit_cells(
                stripped(c@),
            ) ==> cells == w),
        decreases c@.len() - i + (if full {
            0int
        } else {
            1int
        }),
    {
        proof {
            lemma_stripped_step(c@, i as int);
            lemma_spans_push(stripped(c@.take(i as int)), c@[i as int]);
            lemma_prefix_stripped(c@, i + 1);
        }
        let x = c[i];
        if is_shown(st, x) {
            let n: usize = match char_width(x) {
                Some(n) => n,
                None => 0,
            };
            proof {
                let k = stripped(c@.take(i as int)).len() as int;
                assert(stripped(c@.take(i + 1))[k] == x);
                assert(stripped(c@)[k] == x);
            }
            if n > w - cells {
                full = true;
            } else {
                cells = cells + n;
                st = escape_step(st, x);
                i = i + 1;
            }
        } else {
            st = escape_step(st, x);
            i = i + 1;
        }
    }
    proof {
        assert(c@.take(c@.len() as int) =~= c@);
        lemma_clip_end(c@, w as nat, i as int, c@.len() as int);
        if plain_line(s@, stripped(s@).len()) {
            assert(full);
            assert(unit_cells(stripped(s@.take(i as int))));
        }
    }
    let mut k: usize = i;
    while !cuts_at(&c, w, k)
        invariant
            k <= i <= c@.len(),
            cut_place(c@, w as nat, i as int) == cut_place(c@, w as nat, k as int),
            k < i ==> !(escape_state(c@.take(i as int)) != Escape::Csi && unit_cells(stripped(c@.take(i as int)))
                && stripped(c@.take(i as int)).len() <= w),
        decreases k,
    {
        k = k - 1;
    }
    let mut out = string_of(&c, 0, k);
    proof {
        assert(out@ =~= s@.take(k as int));
        lemma_reset(s@.take(k as int));
    }
    out.append("\x1b[0m");
    out
}

/// What the beginning of a text shows is a beginning of what it shows.
proof fn lemma_prefix_stripped(s: Seq<char>, i: int)
    requires
        0 <= i <= s.len(),
    ensures
        stripped(s.take(i)).len() <= stripped(s).len(),
        forall|k: int| 0 <= k < stripped(s.take(i)).len() ==> #[trigger] stripped(s.take(i))[k] == stripped(s)[k],
{
    assert(s =~= s.take(i) + s.skip(i));
    lemma_strip_parts(s.take(i), s.skip(i));
}

/// A line with the second part against its right edge, which is left out where
/// the line is too narrow for both.
pub open spec fn header_text(left: Seq<char>, right: Seq<char>, w: nat) -> Seq<char> {
    let pad = w - visible(left) - visible(right);
    if right.len() > 0 && pad >= 2 {
        left + repeated(' ', pad as nat) + right
    } else {
        padded(clipped(left, w), w)
    }
}

/// Right-aligns the second segment against the first, dropping it when the
/// line is too narrow for both.
pub fn header_line(left: &str, right: &str, w: usize) -> (r: String)
    ensures
        r@ == header_text(left@, right@, w as nat),
        right@.len() == 0 && plain_line(left@, stripped(left@).len()) ==> plain_line(r@, w as nat),
        (right@.len() == 0 || w < visible(left@) + visible(right@) + 2) && escape_state(left@) == Escape::Text ==> visible(
            r@,
        ) == w,
{
    let pad: i128 = w as i128 - width(left) as i128 - width(right) as i128;
    if !right.is_empty() && pad >= 2 {
        joined3(left, spaces(pad as usize).as_str(), right)
    } else {
        pad_line(truncate_width(left, w).as_str(), w)
    }
}

/// The widest of several lines, in cells.
pub open spec fn widest(rows: Seq<Seq<char>>) -> nat
    decreases rows.len(),
{
    if rows.len() == 0 {
        0
    } else {
        let before = widest(rows.drop_last());
        if visible(rows.last()) > before {
            visible(rows.last())
        } else {
            before
        }
    }
}

/// The line at a place, or nothing where there is none.
pub open spec fn line_at(rows: Seq<Seq<char>>, i: int) -> Seq<char> {
    if i < rows.len() {
        rows[i]
    } else {
        ""@
    }
}

/// Two blocks of lines side by side, `gap` spaces between them, their tops
/// aligned.
pub open spec fn beside(left: Seq<char>, gap: nat, right: Seq<char>) -> Seq<char> {
    let l = pieces(left, '\n');
    let r = pieces(right, '\n');
    let n = if l.len() > r.len() {
        l.len()
    } else {
        r.len()
    };
    joined(
        Seq::new(n, |i: int| padded(line_at(l, i), widest(l)) + repeated(' ', gap) + line_at(r, i)),
        "\n"@,
    )
}

fn max_width(rows: &Vec<String>) -> (r: usize)
    ensures
        r == widest(texts(rows@)),
{
    let mut m: usize = 0;
    let mut i: usize = 0;
    let ghost all = texts(rows@);
    proof {
        assert(all.take(0).len() == 0);
    }
    while i < rows.len()
        invariant
            i <= rows@.len(),
            all == texts(rows@),
            m == widest(all.take(i as int)),
        decreases rows@.len() - i,
    {
        proof {
            assert(all.take(i + 1).drop_last() =~= all.take(i as int));
            assert(all.take(i + 1).last() == rows@[i as int]@);
        }
        let n = width(rows[i].as_str());
        if n > m {
            m = n;
        }
        i = i + 1;
    }
    proof {
        assert(all.take(all.len() as int) =~= all);
    }
    m
}

fn row_at(rows: &Vec<String>, i: usize) -> (r: &str)
    ensures
        r@ == line_at(texts(rows@), i as int),
{
    if i < rows.len() {
        rows[i].as_str()
    } else {
        ""
    }
}

/// Places two multi-line blocks side by side, separated by gap spaces on every
/// row, aligning their tops.
pub fn join_horizontal_top(left: &str, gap: usize, right: &str) -> (r: String)
    ensures
        r@ == beside(left@, gap as nat, right@),
{
    broadcast use group_texts;

    let l: Vec<String> = split_at_each(left, '\n');
    let r: Vec<String> = split_at_each(right, '\n');
    let lw: usize = max_width(&l);
    let n: usize = if l.len() > r.len() {
        l.len()
    } else {
        r.len()
    };
    let mut out: Vec<String> = Vec::new();
    let mut i: usize = 0;
    let ghost lt = texts(l@);
    let ghost rt = texts(r@);
    let ghost rows = Seq::new(
        n as nat,
        |k: int| padded(line_at(lt, k), widest(lt)) + repeated(' ', gap as nat) + line_at(rt, k),
    );
    proof {
        assert(texts(out@) =~= rows.take(0));
    }
    while i < n
        invariant
            i <= n,
            lt == texts(l@),
            rt == texts(r@),
            lw == widest(lt),
            rows == Seq::new(
                n as nat,
                |k: int| padded(line_at(lt, k), widest(lt)) + repeated(' ', gap as nat) + line_at(rt, k),
            ),
            texts(out@) == rows.take(i as int),
        decreases n - i,
    {
        broadcast use group_texts;

        let line = joined3(pad_line(row_at(&l, i), lw).as_str(), spaces(gap).as_str(), row_at(&r, i));
        out.push(line);
        proof {
            assert(texts(out@) =~= rows.take(i + 1));
        }
        i = i + 1;
    }
    proof {
        assert(rows.take(n as int) =~= rows);
    }
    join(&out, "\n")
}

/// Lines below each other, each behind the left margin.
pub open spec fn indented(rows: Seq<Seq<char>>) -> Seq<char>
    decreases rows.len(),
{
    if rows.len() == 0 {
        seq![]
    } else {
        indented(rows.drop_last()) + repeated(' ', PAD_X as nat) + rows.last() + "\n"@
    }
}

/// Full-screen rows with the margins.
pub open spec fn framed(rows: Seq<Seq<char>>) -> Seq<char> {
    repeated('\n', PAD_Y as nat) + indented(pieces(joined(rows, "\n"@), '\n'))
}

/// Joins full-screen rows and applies the margins.
pub fn frame_screen(rows: &Vec<String>) -> (r: String)
    ensures
        r@ == framed(texts(rows@)),
{
    let content = join(rows, "\n");
    let lines: Vec<String> = split_at_each(content.as_str(), '\n');
    let mut out = String::new();
    let mut k: usize = 0;
    while k < PAD_Y
        invariant
            k <= PAD_Y,
            out@ == repeated('\n', k as nat),
        decreases PAD_Y - k,
    {
        out.push('\n');
        proof {
            assert(out@ =~= repeated('\n', (k + 1) as nat));
        }
        k = k + 1;
    }
    let pad = spaces(PAD_X);
    let ghost all = texts(lines@);
    let mut i: usize = 0;
    proof {
        assert(all.take(0).len() == 0);
        assert(out@ =~= repeated('\n', PAD_Y as nat) + indented(all.take(0)));
    }
    while i < lines.len()
        invariant
            i <= lines@.len(),
            all == texts(lines@),
            pad@ == repeated(' ', PAD_X as nat),
            out@ == repeated('\n', PAD_Y as nat) + indented(all.take(i as int)),
        decreases lines@.len() - i,
    {
        proof {
            assert(all.take(i + 1).drop_last() =~= all.take(i as int));
            assert(all.take(i + 1).last() == lines@[i as int]@);
        }
        let ghost before = out@;
        out.append(pad.as_str());
        out.append(lines[i].as_str());
        out.append("\n");
        proof {
            assert(out@ =~= repeated('\n', PAD_Y as nat) + indented(all.take(i + 1)));
        }
        i = i + 1;
    }
    proof {
        assert(all.take(all.len() as int) =~= all);
    }
    out
}

/// The newlines of two texts together.
pub proof fn lemma_newlines_join(a: Seq<char>, b: Seq<char>)
    ensures
        newlines(a + b) == newlines(a) + newlines(b),
    decreases b.len(),
{
    if b.len() == 0 {
        assert(a + b =~= a);
    } else {
        assert((a + b).drop_last() =~= a + b.drop_last());
        lemma_newlines_join(a, b.drop_last());
    }
}

proof fn lemma_newline_text()
    ensures
        newlines("\n"@) == 1,
        "\n"@ =~= seq!['\n'],
{
    reveal_strlit("\n");
    assert("\n"@ =~= seq!['\n']);
    assert(seq!['\n'].drop_last() =~= seq![]);
    reveal_with_fuel(newlines, 2);
}

/// A text has one piece more than newlines, and no piece has any.
proof fn lemma_pieces_lines(s: Seq<char>, piece: Seq<char>)
    requires
        newlines(piece) == 0,
    ensures
        pieces_after(s, piece, '\n').len() == newlines(s) + 1,
        forall|i: int|
            0 <= i < pieces_after(s, piece, '\n').len() ==> newlines(#[trigger] pieces_after(s, piece, '\n')[i]) == 0,
    decreases s.len(),
{
    if s.len() > 0 {
        let one = seq![s[0]];
        assert(s =~= one + s.skip(1));
        lemma_newlines_join(one, s.skip(1));
        assert(one.drop_last() =~= seq![]);
        reveal_with_fuel(newlines, 2);
        if s[0] == '\n' {
            lemma_pieces_lines(s.skip(1), seq![]);
            let rest = pieces_after(s.skip(1), seq![], '\n');
            let all = pieces_after(s, piece, '\n');
            assert(all =~= seq![piece] + rest);
            assert forall|i: int| 0 <= i < all.len() implies newlines(#[trigger] all[i]) == 0 by {
                if i > 0 {
                    assert(all[i] == rest[i - 1]);
                }
            }
        } else {
            assert(piece.push(s[0]).drop_last() =~= piece);
            lemma_pieces_lines(s.skip(1), piece.push(s[0]));
        }
    }
}

/// Texts below each other take the lines of each.
proof fn lemma_joined_lines(rows: Seq<Seq<char>>)
    requires
        rows.len() > 0,
    ensures
        newlines(joined(rows, "\n"@)) + 1 == lines_of_all(rows),
    decreases rows.len(),
{
    lemma_newline_text();
    if rows.len() == 1 {
        assert(rows.drop_last() =~= seq![]);
        reveal_with_fuel(lines_of_all, 2);
        assert(joined(rows, "\n"@) == rows[0]);
    } else {
        let front = rows.drop_last();
        lemma_joined_lines(front);
        let a = joined(front, "\n"@);
        assert(joined(rows, "\n"@) == a + "\n"@ + rows.last());
        lemma_newlines_join(a, "\n"@);
        lemma_newlines_join(a + "\n"@, rows.last());
    }
}

proof fn lemma_no_newlines(c: char, n: nat)
    requires
        c != '\n',
    ensures
        newlines(repeated(c, n)) == 0,
    decreases n,
{
    if n > 0 {
        assert(repeated(c, n).drop_last() =~= repeated(c, (n - 1) as nat));
        lemma_no_newlines(c, (n - 1) as nat);
    }
}

proof fn lemma_indented_lines(rows: Seq<Seq<char>>)
    requires
        forall|i: int| 0 <= i < rows.len() ==> newlines(#[trigger] rows[i]) == 0,
    ensures
        newlines(indented(rows)) == rows.len(),
    decreases rows.len(),
{
    if rows.len() > 0 {
        let front = rows.drop_last();
        assert forall|i: int| 0 <= i < front.len() implies newlines(#[trigger] front[i]) == 0 by {
            assert(front[i] == rows[i]);
        }
        lemma_indented_lines(front);
        lemma_newline_text();
        let pad = repeated(' ', PAD_X as nat);
        lemma_no_newlines(' ', PAD_X as nat);
        lemma_newlines_join(indented(front), pad);
        lemma_newlines_join(indented(front) + pad, rows.last());
        lemma_newlines_join(indented(front) + pad + rows.last(), "\n"@);
        assert(rows[rows.len() - 1] == rows.last());
    }
}

/// A framed screen has a line for each line of its rows, below the margin.
pub proof fn lemma_framed_lines(rows: Seq<Seq<char>>)
    requires
        rows.len() > 0,
    ensures
        newlines(framed(rows)) == PAD_Y + lines_of_all(rows),
{
    let content = joined(rows, "\n"@);
    lemma_joined_lines(rows);
    lemma_pieces_lines(content, seq![]);
    lemma_indented_lines(pieces(content, '\n'));
    lemma_newlines_join(repeated('\n', PAD_Y as nat), indented(pieces(content, '\n')));
    assert(repeated('\n', PAD_Y as nat).drop_last() =~= seq![]);
    reveal_with_fuel(newlines, 2);
}

} // verus!
