//! Minimal ANSI styling: 16-color foreground and background, bold, and
//! display widths that ignore escape sequences.

use crate::chars::{joined, lemma_numeral_digits, numeral, push_numeral};
use unicode_width::UnicodeWidthStr;
use vstd::prelude::*;
use vstd::string::StringExecFns;

verus! {

// Traffic-light palette shared by the gauges, core bars and plot, as ANSI
// color indices.
pub const GREEN: u8 = 2;

pub const YELLOW: u8 = 3;

pub const RED: u8 = 1;

pub const BLUE: u8 = 4;

pub const PURPLE: u8 = 5;

pub const CYAN: u8 = 6;

pub const WHITE: u8 = 7;

pub const BLACK: u8 = 0;

/// Dim: unfilled bar segments, details.
pub const GRAY: u8 = 8;

pub const BRIGHT_MAGENTA: u8 = 13;

// Identity colors: every metric keeps one color across gauges and chart.
pub const CPU_COLOR: u8 = GREEN;

pub const MEM_COLOR: u8 = YELLOW;

pub const SWAP_COLOR: u8 = PURPLE;

pub const DISK_COLOR: u8 = CYAN;

pub const GPU_COLOR: u8 = BLUE;

pub const GPU_MEM_COLOR: u8 = BRIGHT_MAGENTA;

/// A foreground, background and bold styling, applied by wrapping text in SGR
/// codes.
#[derive(Clone, Copy, Debug, PartialEq, Eq, Structural)]
pub struct Style {
    pub fg: Option<u8>,
    pub bg: Option<u8>,
    pub bold: bool,
}

/// The SGR code of a foreground color.
pub open spec fn fg_sgr(c: u8) -> nat {
    if c < 8 {
        (30 + c) as nat
    } else {
        (90 + (c - 8)) as nat
    }
}

/// The SGR code of a background color.
pub open spec fn bg_sgr(c: u8) -> nat {
    if c < 8 {
        (40 + c) as nat
    } else {
        (100 + (c - 8)) as nat
    }
}

impl Style {
    /// The styling that changes nothing.
    pub open spec fn plain() -> Style {
        Style { fg: None, bg: None, bold: false }
    }

    /// The styling of one foreground color.
    pub open spec fn ink(c: u8) -> Style {
        Style { fg: Some(c), bg: None, bold: false }
    }

    /// A foreground color on a background color.
    pub open spec fn on(c: u8, b: u8) -> Style {
        Style { fg: Some(c), bg: Some(b), bold: false }
    }

    /// The same styling in bold.
    pub open spec fn strong(self) -> Style {
        Style { fg: self.fg, bg: self.bg, bold: true }
    }

    /// The SGR codes in the order in which they are written.
    pub open spec fn codes(self) -> Seq<Seq<char>> {
        let b: Seq<Seq<char>> = if self.bold {
            seq![seq!['1']]
        } else {
            seq![]
        };
        let f: Seq<Seq<char>> = match self.fg {
            Some(c) => seq![numeral(fg_sgr(c))],
            None => seq![],
        };
        let g: Seq<Seq<char>> = match self.bg {
            Some(c) => seq![numeral(bg_sgr(c))],
            None => seq![],
        };
        b + f + g
    }

    /// The text wrapped in the style's codes; unstyled text as it is.
    pub open spec fn rendered(self, s: Seq<char>) -> Seq<char> {
        if self == Style::plain() {
            s
        } else {
            seq!['\x1b', '['] + joined(self.codes(), seq![';']) + seq!['m'] + s + seq!['\x1b', '[', '0', 'm']
        }
    }
}

/// Where a reader of a styled text stands.
#[derive(Clone, Copy, Debug, PartialEq, Eq, Structural)]
pub enum Escape {
    /// In visible text.
    Text,
    /// Behind an escape character.
    Esc,
    /// Inside a control sequence.
    Csi,
}

/// Whether a character ends a control sequence.
pub open spec fn ends_csi(c: char) -> bool {
    '@' <= c <= '~'
}

/// Where the reader stands behind one more character.
pub open spec fn escape_next(st: Escape, c: char) -> Escape {
    match st {
        Escape::Csi => if ends_csi(c) {
            Escape::Text
        } else {
            Escape::Csi
        },
        Escape::Esc => if c == '[' {
            Escape::Csi
        } else if c == '\x1b' {
            Escape::Esc
        } else {
            Escape::Text
        },
        Escape::Text => if c == '\x1b' {
            Escape::Esc
        } else {
            Escape::Text
        },
    }
}

/// Whether a character read at `st` is visible text.
pub open spec fn shows(st: Escape, c: char) -> bool {
    c != '\x1b' && st != Escape::Csi && !(st == Escape::Esc && c == '[')
}

/// Where the reader stands at the end of a text.
pub open spec fn escape_state(s: Seq<char>) -> Escape
    decreases s.len(),
{
    if s.len() == 0 {
        Escape::Text
    } else {
        escape_next(escape_state(s.drop_last()), s.last())
    }
}

/// The text without its escape sequences.
pub open spec fn stripped(s: Seq<char>) -> Seq<char>
    decreases s.len(),
{
    if s.len() == 0 {
        seq![]
    } else if shows(escape_state(s.drop_last()), s.last()) {
        stripped(s.drop_last()).push(s.last())
    } else {
        stripped(s.drop_last())
    }
}

/// The display width of plain text in terminal cells, as
/// `unicode_width::UnicodeWidthStr::width` counts it.
pub uninterp spec fn cells(s: Seq<char>) -> nat;

/// The display width of styled text.
pub open spec fn visible(s: Seq<char>) -> nat {
    cells(stripped(s))
}

/// Characters that take one cell wherever they stand: printable ASCII, the
/// degree and multiplication signs, arrows, box drawing, block elements and
/// braille patterns.
pub open spec fn unit_cell(c: char) -> bool {
    ' ' <= c <= '~' || c == '°' || c == '×' || '\u{2190}' <= c <= '\u{2193}' || '\u{2500}' <= c <= '\u{259f}' || '\u{2800}' <= c <= '\u{28ff}'
}

/// Text made of characters that take one cell each.
pub open spec fn unit_cells(s: Seq<char>) -> bool {
    forall|i: int| 0 <= i < s.len() ==> unit_cell(#[trigger] s[i])
}

/// `UnicodeWidthStr::width` counts cells from the end of the text to its
/// start. Printable ASCII, the degree and multiplication signs, arrows, box
/// drawing, block and braille characters take one cell each, on their own and
/// as the tail of any text: none of them joins up with what stands before it.
#[verifier::external_body]
fn str_cells(s: &str) -> (r: usize)
    ensures
        r == cells(s@),
        unit_cells(s@) ==> r == s@.len(),
        forall|t: Seq<char>| unit_cells(t) ==> #[trigger] cells(s@ + t) == r + t.len(),
{
    s.width()
}

impl Style {
    pub fn new() -> (r: Style)
        ensures
            r == Style::plain(),
    {
        Style { fg: None, bg: None, bold: false }
    }

    pub fn fg(self, c: u8) -> (r: Style)
        ensures
            r == (Style { fg: Some(c), ..self }),
    {
        Style { fg: Some(c), bg: self.bg, bold: self.bold }
    }

    pub fn bg(self, c: u8) -> (r: Style)
        ensures
            r == (Style { bg: Some(c), ..self }),
    {
        Style { fg: self.fg, bg: Some(c), bold: self.bold }
    }

    pub fn bold(self) -> (r: Style)
        ensures
            r == self.strong(),
    {
        Style { fg: self.fg, bg: self.bg, bold: true }
    }

    /// Wraps `s` in the style's SGR codes, resetting afterwards. Unstyled text
    /// is returned unchanged.
    pub fn render(&self, s: &str) -> (r: String)
        ensures
            r@ == self.rendered(s@),
    {
        if !self.bold && self.fg.is_none() && self.bg.is_none() {
            return s.to_owned();
        }
        let mut out = String::new();
        out.push('\x1b');
        out.push('[');
        let ghost head = out@;
        let ghost mut done: Seq<Seq<char>> = seq![];
        if self.bold {
            out.push('1');
            proof {
                done = done.push(seq!['1']);
                assert(out@ =~= head + joined(done, seq![';']));
            }
        } else {
            proof {
                assert(out@ =~= head + joined(done, seq![';']));
            }
        }
        if let Some(c) = self.fg {
            if self.bold {
                out.push(';');
            }
            push_numeral(&mut out, fg_code(c) as u64);
            proof {
                let one = numeral(fg_sgr(c));
                assert(done.push(one).drop_last() =~= done);
                done = done.push(one);
                assert(out@ =~= head + joined(done, seq![';']));
            }
        }
        if let Some(c) = self.bg {
            if self.bold || self.fg.is_some() {
                out.push(';');
            }
            push_numeral(&mut out, bg_code(c) as u64);
            proof {
                let one = numeral(bg_sgr(c));
                assert(done.push(one).drop_last() =~= done);
                done = done.push(one);
                assert(out@ =~= head + joined(done, seq![';']));
            }
        }
        proof {
            assert(done =~= self.codes());
            assert(head =~= seq!['\x1b', '[']);
        }
        out.push('m');
        out.append(s);
        out.push('\x1b');
        out.push('[');
        out.push('0');
        out.push('m');
        proof {
            assert(out@ =~= self.rendered(s@));
        }
        out
    }
}

fn fg_code(c: u8) -> (r: u16)
    ensures
        r == fg_sgr(c),
{
    if c < 8 {
        30 + c as u16
    } else {
        90 + (c as u16 - 8)
    }
}

fn bg_code(c: u8) -> (r: u16)
    ensures
        r == bg_sgr(c),
{
    if c < 8 {
        40 + c as u16
    } else {
        100 + (c as u16 - 8)
    }
}

/// Text in the dim color.
pub open spec fn dimmed(s: Seq<char>) -> Seq<char> {
    Style::ink(GRAY).rendered(s)
}

pub fn dim(s: &str) -> (r: String)
    ensures
        r@ == dimmed(s@),
{
    Style::new().fg(GRAY).render(s)
}

/// The display width of `s` in terminal cells, ignoring ANSI sequences.
pub fn width(s: &str) -> (r: usize)
    ensures
        r == visible(s@),
        unit_cells(stripped(s@)) ==> r == stripped(s@).len(),
        forall|t: Seq<char>| unit_cells(t) ==> #[trigger] cells(stripped(s@) + t) == r + t.len(),
{
    let t = strip_ansi(s);
    str_cells(t.as_str())
}

/// Where the reader stands behind one more character.
pub fn escape_step(st: Escape, c: char) -> (r: Escape)
    ensures
        r == escape_next(st, c),
{
    match st {
        Escape::Csi => if '@' <= c && c <= '~' {
            Escape::Text
        } else {
            Escape::Csi
        },
        Escape::Esc => if c == '[' {
            Escape::Csi
        } else if c == '\x1b' {
            Escape::Esc
        } else {
            Escape::Text
        },
        Escape::Text => if c == '\x1b' {
            Escape::Esc
        } else {
            Escape::Text
        },
    }
}

/// Whether a character read at `st` is visible text.
pub fn is_shown(st: Escape, c: char) -> (r: bool)
    ensures
        r == shows(st, c),
{
    c != '\x1b' && st != Escape::Csi && !(st == Escape::Esc && c == '[')
}

/// Removes the escape sequences (`ESC [` up to a final byte) from `s`.
pub fn strip_ansi(s: &str) -> (r: String)
    ensures
        r@ == stripped(s@),
{
    let mut out = String::new();
    let mut st = Escape::Text;
    proof {
        assert(s@.take(0).len() == 0);
        assert(out@ =~= stripped(s@.take(0)));
    }
    for c in it: s.chars()
        invariant
            it.seq() == s@,
            st == escape_state(s@.take(it.index() as int)),
            out@ == stripped(s@.take(it.index() as int)),
    {
        proof {
            assert(s@.take(it.index() + 1).drop_last() =~= s@.take(it.index() as int));
            assert(s@.take(it.index() + 1).last() == c);
        }
        if is_shown(st, c) {
            out.push(c);
        }
        st = escape_step(st, c);
    }
    proof {
        assert(s@.take(s@.len() as int) =~= s@);
    }
    out
}

/// Where the reader stands behind `s`, from `st` on.
pub open spec fn escape_from(st: Escape, s: Seq<char>) -> Escape
    decreases s.len(),
{
    if s.len() == 0 {
        st
    } else {
        escape_next(escape_from(st, s.drop_last()), s.last())
    }
}

/// What `s` shows, read from `st` on.
pub open spec fn stripped_from(st: Escape, s: Seq<char>) -> Seq<char>
    decreases s.len(),
{
    if s.len() == 0 {
        seq![]
    } else if shows(escape_from(st, s.drop_last()), s.last()) {
        stripped_from(st, s.drop_last()).push(s.last())
    } else {
        stripped_from(st, s.drop_last())
    }
}

/// A text is read one part after the other.
pub proof fn lemma_strip_parts(a: Seq<char>, b: Seq<char>)
    ensures
        escape_state(a + b) == escape_from(escape_state(a), b),
        stripped(a + b) == stripped(a) + stripped_from(escape_state(a), b),
    decreases b.len(),
{
    if b.len() == 0 {
        assert(a + b =~= a);
        assert(stripped(a) + seq![] =~= stripped(a));
    } else {
        lemma_strip_parts(a, b.drop_last());
        assert((a + b).drop_last() =~= a + b.drop_last());
        assert((a + b).last() == b.last());
        let st = escape_state(a);
        if shows(escape_from(st, b.drop_last()), b.last()) {
            assert((stripped(a) + stripped_from(st, b.drop_last())).push(b.last()) =~= stripped(a) + stripped_from(
                st,
                b.drop_last(),
            ).push(b.last()));
        }
    }
}

/// From visible text on, a text is read as on its own.
pub proof fn lemma_strip_fresh(b: Seq<char>)
    ensures
        escape_from(Escape::Text, b) == escape_state(b),
        stripped_from(Escape::Text, b) == stripped(b),
    decreases b.len(),
{
    if b.len() > 0 {
        lemma_strip_fresh(b.drop_last());
    }
}

/// Text without an escape character shows as it is.
pub proof fn lemma_strip_plain(s: Seq<char>)
    requires
        forall|i: int| 0 <= i < s.len() ==> #[trigger] s[i] != '\x1b',
    ensures
        escape_state(s) == Escape::Text,
        stripped(s) == s,
    decreases s.len(),
{
    if s.len() > 0 {
        lemma_strip_plain(s.drop_last());
        assert(s.drop_last().push(s.last()) =~= s);
    } else {
        assert(stripped(s) =~= s);
    }
}

/// Characters that do not end a control sequence leave the reader inside it.
proof fn lemma_inside_csi(s: Seq<char>)
    requires
        forall|i: int| 0 <= i < s.len() ==> !ends_csi(#[trigger] s[i]),
    ensures
        escape_from(Escape::Csi, s) == Escape::Csi,
        stripped_from(Escape::Csi, s) == Seq::<char>::empty(),
    decreases s.len(),
{
    if s.len() > 0 {
        lemma_inside_csi(s.drop_last());
    }
}

/// Characters of joined parts are those of the parts and of the separator.
proof fn lemma_joined_inside(parts: Seq<Seq<char>>, sep: Seq<char>)
    requires
        forall|k: int, i: int| 0 <= k < parts.len() && 0 <= i < parts[k].len() ==> !ends_csi(#[trigger] parts[k][i]),
        forall|i: int| 0 <= i < sep.len() ==> !ends_csi(#[trigger] sep[i]),
    ensures
        forall|i: int| 0 <= i < joined(parts, sep).len() ==> !ends_csi(#[trigger] joined(parts, sep)[i]),
    decreases parts.len(),
{
    if parts.len() > 1 {
        let front = parts.drop_last();
        assert forall|k: int, i: int| 0 <= k < front.len() && 0 <= i < front[k].len() implies !ends_csi(
            #[trigger] front[k][i],
        ) by {
            assert(front[k] == parts[k]);
        }
        lemma_joined_inside(front, sep);
        let a = joined(front, sep);
        let c = parts.last();
        assert forall|i: int| 0 <= i < (a + sep + c).len() implies !ends_csi(#[trigger] (a + sep + c)[i]) by {
            if i < a.len() {
                assert((a + sep + c)[i] == a[i]);
            } else if i < a.len() + sep.len() {
                assert((a + sep + c)[i] == sep[i - a.len()]);
            } else {
                assert((a + sep + c)[i] == parts[parts.len() - 1][i - a.len() - sep.len()]);
            }
        }
    }
}

/// No code of a style ends a control sequence.
proof fn lemma_codes_inside(style: Style)
    ensures
        forall|k: int, i: int|
            0 <= k < style.codes().len() && 0 <= i < style.codes()[k].len() ==> !ends_csi(
                #[trigger] style.codes()[k][i],
            ),
{
    let codes = style.codes();
    assert forall|k: int, i: int| 0 <= k < codes.len() && 0 <= i < codes[k].len() implies !ends_csi(
        #[trigger] codes[k][i],
    ) by {
        if let Some(c) = style.fg {
            lemma_numeral_digits(fg_sgr(c));
        }
        if let Some(c) = style.bg {
            lemma_numeral_digits(bg_sgr(c));
        }
    }
}

/// The start of a control sequence and its end show nothing.
proof fn lemma_csi_ends()
    ensures
        escape_state(seq!['\x1b', '[']) == Escape::Csi,
        stripped(seq!['\x1b', '[']) == Seq::<char>::empty(),
        escape_from(Escape::Csi, seq!['m']) == Escape::Text,
        stripped_from(Escape::Csi, seq!['m']) == Seq::<char>::empty(),
{
    let open = seq!['\x1b', '['];
    let esc = seq!['\x1b'];
    let none = Seq::<char>::empty();
    assert(open.drop_last() =~= esc);
    assert(esc.drop_last() =~= none);
    assert(escape_state(none) == Escape::Text);
    assert(stripped(none) =~= none);
    assert(escape_state(esc) == Escape::Esc);
    assert(stripped(esc) =~= none);
    let close = seq!['m'];
    assert(close.drop_last() =~= none);
    assert(escape_from(Escape::Csi, none) == Escape::Csi);
    assert(stripped_from(Escape::Csi, none) =~= none);
}

/// A reset shows nothing, wherever it stands but inside a control sequence.
proof fn lemma_reset_shows_nothing(st: Escape)
    requires
        st != Escape::Csi,
    ensures
        escape_from(st, seq!['\x1b', '[', '0', 'm']) == Escape::Text,
        stripped_from(st, seq!['\x1b', '[', '0', 'm']) == Seq::<char>::empty(),
{
    let none = Seq::<char>::empty();
    let a = seq!['\x1b'];
    let b = seq!['\x1b', '['];
    let c = seq!['\x1b', '[', '0'];
    let d = seq!['\x1b', '[', '0', 'm'];
    assert(d.drop_last() =~= c && c.drop_last() =~= b && b.drop_last() =~= a && a.drop_last() =~= none);
    assert(escape_from(st, none) == st);
    assert(stripped_from(st, none) =~= none);
    assert(escape_from(st, a) == Escape::Esc);
    assert(stripped_from(st, a) =~= none);
    assert(escape_from(st, b) == Escape::Csi);
    assert(stripped_from(st, b) =~= none);
    assert(escape_from(st, c) == Escape::Csi);
    assert(stripped_from(st, c) =~= none);
}

/// Styling changes nothing that shows: what a styled text shows is what the
/// text itself shows, whatever the style, unless the text breaks off inside a
/// control sequence.
pub proof fn lemma_render_shows_text(style: Style, s: Seq<char>)
    requires
        escape_state(s) != Escape::Csi,
    ensures
        stripped(style.rendered(s)) == stripped(s),
        style != Style::plain() ==> escape_state(style.rendered(s)) == Escape::Text,
        visible(style.rendered(s)) == visible(s),
{
    if style != Style::plain() {
        let sep = seq![';'];
        let mid = joined(style.codes(), sep);
        let open = seq!['\x1b', '['];
        let close = seq!['m'];
        let reset = seq!['\x1b', '[', '0', 'm'];
        assert(forall|i: int| 0 <= i < mid.len() ==> !ends_csi(#[trigger] mid[i])) by {
            lemma_codes_inside(style);
            lemma_joined_inside(style.codes(), sep);
        }
        lemma_inside_csi(mid);
        lemma_csi_ends();
        lemma_strip_parts(open, mid);
        lemma_strip_parts(open + mid, close);
        lemma_strip_parts(open + mid + close, s);
        lemma_strip_parts(open + mid + close + s, reset);
        lemma_strip_fresh(s);
        lemma_reset_shows_nothing(escape_state(s));
        assert(stripped(open + mid + close) =~= Seq::<char>::empty());
        assert(stripped(open + mid + close + s) =~= stripped(s));
        assert(stripped(style.rendered(s)) =~= stripped(s));
    }
}

/// A finished line that shows `n` characters of one cell each.
pub open spec fn plain_line(s: Seq<char>, n: nat) -> bool {
    escape_state(s) == Escape::Text && unit_cells(stripped(s)) && stripped(s).len() == n
}

/// Text of one-cell characters is such a line.
pub proof fn lemma_plain_text(s: Seq<char>)
    requires
        unit_cells(s),
    ensures
        plain_line(s, s.len()),
{
    lemma_strip_plain(s);
}

/// Such lines one after the other are such a line.
pub proof fn lemma_plain_join(a: Seq<char>, n: nat, b: Seq<char>, m: nat)
    requires
        plain_line(a, n),
        plain_line(b, m),
    ensures
        plain_line(a + b, n + m),
{
    lemma_strip_parts(a, b);
    lemma_strip_fresh(b);
    let s = stripped(a) + stripped(b);
    assert forall|i: int| 0 <= i < s.len() implies unit_cell(#[trigger] s[i]) by {
        if i < n {
            assert(s[i] == stripped(a)[i]);
        } else {
            assert(s[i] == stripped(b)[i - n]);
        }
    }
}

/// Such a line stays one in any style.
pub proof fn lemma_plain_render(style: Style, s: Seq<char>, n: nat)
    requires
        plain_line(s, n),
    ensures
        plain_line(style.rendered(s), n),
{
    lemma_render_shows_text(style, s);
}

} // verus!
