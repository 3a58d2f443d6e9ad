//! Taking text apart: whitespace, words, lines, pieces, places and integers.

use crate::chars::{chars_of, group_texts, string_of, texts};
use crate::num::read::{is_digit, is_digit_char, numeral_value, only_digits};
use vstd::prelude::*;

verus! {

/// Unicode whitespace.
pub open spec fn white(c: char) -> bool {
    let n = c as u32;
    (9 <= n <= 13) || n == 0x20 || n == 0x85 || n == 0xa0 || n == 0x1680 || (0x2000 <= n <= 0x200a) || n == 0x2028 || n
        == 0x2029 || n == 0x202f || n == 0x205f || n == 0x3000
}

/// The text without whitespace at its start.
pub open spec fn trim_start(s: Seq<char>) -> Seq<char>
    decreases s.len(),
{
    if s.len() > 0 && white(s[0]) {
        trim_start(s.skip(1))
    } else {
        s
    }
}

/// The text without whitespace at its end.
pub open spec fn trim_end(s: Seq<char>) -> Seq<char>
    decreases s.len(),
{
    if s.len() > 0 && white(s.last()) {
        trim_end(s.drop_last())
    } else {
        s
    }
}

/// The text without whitespace at either end.
pub open spec fn trimmed(s: Seq<char>) -> Seq<char> {
    trim_end(trim_start(s))
}

/// A word as a list, where it holds anything.
pub open spec fn some_word(word: Seq<char>) -> Seq<Seq<char>> {
    if word.len() == 0 {
        seq![]
    } else {
        seq![word]
    }
}

/// The words of `s`, the first of which goes on from `word`.
pub open spec fn words_after(s: Seq<char>, word: Seq<char>) -> Seq<Seq<char>>
    decreases s.len(),
{
    if s.len() == 0 {
        some_word(word)
    } else if white(s[0]) {
        some_word(word) + words_after(s.skip(1), seq![])
    } else {
        words_after(s.skip(1), word.push(s[0]))
    }
}

/// The maximal runs of characters that are not whitespace.
pub open spec fn words(s: Seq<char>) -> Seq<Seq<char>> {
    words_after(s, seq![])
}

/// The pieces of `s` between separators, the first of which goes on from
/// `piece`.
pub open spec fn pieces_after(s: Seq<char>, piece: Seq<char>, sep: char) -> Seq<Seq<char>>
    decreases s.len(),
{
    if s.len() == 0 {
        seq![piece]
    } else if s[0] == sep {
        seq![piece] + pieces_after(s.skip(1), seq![], sep)
    } else {
        pieces_after(s.skip(1), piece.push(s[0]), sep)
    }
}

/// The pieces of `s` between separators; one more than there are separators.
pub open spec fn pieces(s: Seq<char>, sep: char) -> Seq<Seq<char>> {
    pieces_after(s, seq![], sep)
}

/// A line without the carriage return before its newline.
pub open spec fn chomped(line: Seq<char>) -> Seq<char> {
    if line.len() > 0 && line.last() == '\r' {
        line.drop_last()
    } else {
        line
    }
}

/// The lines of `s`, the first of which goes on from `line`.
pub open spec fn lines_after(s: Seq<char>, line: Seq<char>) -> Seq<Seq<char>>
    decreases s.len(),
{
    if s.len() == 0 {
        some_word(line)
    } else if s[0] == '\n' {
        seq![chomped(line)] + lines_after(s.skip(1), seq![])
    } else {
        lines_after(s.skip(1), line.push(s[0]))
    }
}

/// The lines of `s`: a last line without a newline counts where it is not
/// empty.
pub open spec fn lines(s: Seq<char>) -> Seq<Seq<char>> {
    lines_after(s, seq![])
}

/// Whether `q` stands in `s` at place `i`.
pub open spec fn stands_at(s: Seq<char>, q: Seq<char>, i: int) -> bool {
    0 <= i && i + q.len() <= s.len() && s.subrange(i, i + q.len()) == q
}

/// The first place from `i` on where `q` stands in `s`.
pub open spec fn find_from(s: Seq<char>, q: Seq<char>, i: int) -> Option<int>
    decreases s.len() - i + 1,
{
    if i < 0 || i + q.len() > s.len() {
        None
    } else if stands_at(s, q, i) {
        Some(i)
    } else {
        find_from(s, q, i + 1)
    }
}

/// The first place where `q` stands in `s`.
pub open spec fn find(s: Seq<char>, q: Seq<char>) -> Option<int> {
    find_from(s, q, 0)
}

/// Whether `q` stands anywhere in `s`.
pub open spec fn contains(s: Seq<char>, q: Seq<char>) -> bool {
    find(s, q) is Some
}

/// Whether `s` begins with `q`.
pub open spec fn begins(s: Seq<char>, q: Seq<char>) -> bool {
    stands_at(s, q, 0)
}

/// The text before and after the first separator.
pub open spec fn halves(s: Seq<char>, sep: Seq<char>) -> Option<(Seq<char>, Seq<char>)> {
    match find(s, sep) {
        Some(i) => Some((s.take(i), s.skip(i + sep.len()))),
        None => None,
    }
}

/// The last place that holds a character.
pub open spec fn last_place(s: Seq<char>, c: char) -> Option<int>
    decreases s.len(),
{
    if s.len() == 0 {
        None
    } else if s.last() == c {
        Some(s.len() - 1)
    } else {
        last_place(s.drop_last(), c)
    }
}

/// The digits of an unsigned numeral, which may begin with a plus sign.
pub open spec fn after_plus(s: Seq<char>) -> Seq<char> {
    if s.len() > 0 && s[0] == '+' {
        s.skip(1)
    } else {
        s
    }
}

/// The value of an unsigned decimal numeral, where it is one and no greater
/// than `top`.
pub open spec fn unsigned_value(s: Seq<char>, top: nat) -> Option<nat> {
    let d = after_plus(s);
    if d.len() == 0 || !only_digits(d) || numeral_value(d) > top {
        None
    } else {
        Some(numeral_value(d))
    }
}

/// The value of a decimal numeral with an optional sign, where it is one and
/// lies in `low..=top`.
pub open spec fn signed_value(s: Seq<char>, low: int, top: int) -> Option<int> {
    let neg = s.len() > 0 && s[0] == '-';
    let d = if neg {
        s.skip(1)
    } else {
        after_plus(s)
    };
    let v = if neg {
        -(numeral_value(d) as int)
    } else {
        numeral_value(d) as int
    };
    if d.len() == 0 || !only_digits(d) || v < low || v > top {
        None
    } else {
        Some(v)
    }
}

/// Whether a character is whitespace.
pub fn is_white(c: char) -> (r: bool)
    ensures
        r == white(c),
{
    let n: u32 = c as u32;
    (9 <= n && n <= 13) || n == 0x20 || n == 0x85 || n == 0xa0 || n == 0x1680 || (0x2000 <= n && n <= 0x200a) || n
        == 0x2028 || n == 0x2029 || n == 0x202f || n == 0x205f || n == 0x3000
}

/// The text without whitespace at either end.
pub fn trim(s: &str) -> (r: String)
    ensures
        r@ == trimmed(s@),
{
    let c: Vec<char> = chars_of(s);
    let n: usize = c.len();
    let mut i: usize = 0;
    proof {
        assert(c@.skip(0) =~= c@);
    }
    while i < n && is_white(c[i])
        invariant
            i <= n,
            n == c@.len(),
            trim_start(c@) == trim_start(c@.skip(i as int)),
        decreases n - i,
    {
        proof {
            assert(c@.skip(i as int).skip(1) =~= c@.skip(i + 1));
        }
        i = i + 1;
    }
    let mut j: usize = n;
    let ghost rest = c@.skip(i as int);
    proof {
        assert(rest =~= c@.subrange(i as int, n as int));
    }
    while j > i && is_white(c[j - 1])
        invariant
            i <= j <= n,
            n == c@.len(),
            trim_end(rest) == trim_end(c@.subrange(i as int, j as int)),
        decreases j,
    {
        proof {
            assert(c@.subrange(i as int, j as int).drop_last() =~= c@.subrange(i as int, j - 1));
        }
        j = j - 1;
    }
    string_of(&c, i, j)
}

/// The maximal runs of characters that are not whitespace.
pub fn split_words(s: &str) -> (r: Vec<String>)
    ensures
        texts(r@) == words(s@),
{
    broadcast use group_texts;

    let c: Vec<char> = chars_of(s);
    let mut out: Vec<String> = Vec::new();
    let mut word = String::new();
    let mut i: usize = 0;
    proof {
        assert(c@.skip(0) =~= c@);
        assert(word@ =~= seq![]);
        assert(texts(out@) + words(s@) =~= words(s@));
    }
    while i < c.len()
        invariant
            i <= c@.len(),
            texts(out@) + words_after(c@.skip(i as int), word@) == words(s@),
        decreases c@.len() - i,
    {
        broadcast use group_texts;

        let ghost done = texts(out@);
        let ghost rest = c@.skip(i as int);
        proof {
            assert(rest.skip(1) =~= c@.skip(i + 1));
        }
        if is_white(c[i]) {
            let ghost w = word@;
            if !word.as_str().is_empty() {
                out.push(word);
                word = String::new();
                proof {
                    assert(done.push(w) =~= done + some_word(w));
                }
            } else {
                proof {
                    assert(done =~= done + some_word(w));
                }
            }
            proof {
                assert(word@ =~= seq![]);
                assert(done + (some_word(w) + words_after(rest.skip(1), seq![])) =~= (done + some_word(w)) + words_after(
                    rest.skip(1),
                    seq![],
                ));
            }
        } else {
            word.push(c[i]);
        }
        i = i + 1;
    }
    let ghost done = texts(out@);
    let ghost w = word@;
    if !word.as_str().is_empty() {
        out.push(word);
        proof {
            assert(done.push(w) =~= done + some_word(w));
        }
    } else {
        proof {
            assert(done =~= done + some_word(w));
        }
    }
    out
}

/// The pieces between separators.
pub fn split_at_each(s: &str, sep: char) -> (r: Vec<String>)
    ensures
        texts(r@) == pieces(s@, sep),
        r@.len() >= 1,
{
    broadcast use group_texts;

    let c: Vec<char> = chars_of(s);
    let mut out: Vec<String> = Vec::new();
    let mut piece = String::new();
    let mut i: usize = 0;
    proof {
        assert(c@.skip(0) =~= c@);
        assert(piece@ =~= seq![]);
        assert(texts(out@) + pieces(s@, sep) =~= pieces(s@, sep));
    }
    while i < c.len()
        invariant
            i <= c@.len(),
            texts(out@) + pieces_after(c@.skip(i as int), piece@, sep) == pieces(s@, sep),
        decreases c@.len() - i,
    {
        broadcast use group_texts;

        let ghost done = texts(out@);
        let ghost rest = c@.skip(i as int);
        proof {
            assert(rest.skip(1) =~= c@.skip(i + 1));
        }
        if c[i] == sep {
            let ghost w = piece@;
            out.push(piece);
            piece = String::new();
            proof {
                assert(piece@ =~= seq![]);
                assert(done + (seq![w] + pieces_after(rest.skip(1), seq![], sep)) =~= done.push(w) + pieces_after(
                    rest.skip(1),
                    seq![],
                    sep,
                ));
            }
        } else {
            piece.push(c[i]);
        }
        i = i + 1;
    }
    let ghost done = texts(out@);
    let ghost w = piece@;
    out.push(piece);
    proof {
        assert(done.push(w) =~= done + seq![w]);
    }
    out
}

/// The lines of a text.
pub fn split_lines(s: &str) -> (r: Vec<String>)
    ensures
        texts(r@) == lines(s@),
{
    broadcast use group_texts;

    let c: Vec<char> = chars_of(s);
    let mut out: Vec<String> = Vec::new();
    let mut start: usize = 0;
    let mut i: usize = 0;
    proof {
        assert(c@.skip(0) =~= c@);
        assert(c@.subrange(0, 0) =~= seq![]);
        assert(texts(out@) + lines(s@) =~= lines(s@));
    }
    while i < c.len()
        invariant
            start <= i <= c@.len(),
            texts(out@) + lines_after(c@.skip(i as int), c@.subrange(start as int, i as int)) == lines(s@),
        decreases c@.len() - i,
    {
        broadcast use group_texts;

        let ghost done = texts(out@);
        let ghost rest = c@.skip(i as int);
        let ghost line = c@.subrange(start as int, i as int);
        proof {
            assert(rest.skip(1) =~= c@.skip(i + 1));
        }
        if c[i] == '\n' {
            let end: usize = if i > start && c[i - 1] == '\r' {
                i - 1
            } else {
                i
            };
            out.push(string_of(&c, start, end));
            proof {
                assert(c@.subrange(start as int, end as int) =~= chomped(line));
                assert(done + (seq![chomped(line)] + lines_after(rest.skip(1), seq![])) =~= done.push(chomped(line))
                    + lines_after(rest.skip(1), seq![]));
                assert(c@.subrange(i + 1, i + 1) =~= seq![]);
            }
            start = i + 1;
        } else {
            proof {
                assert(line.push(c@[i as int]) =~= c@.subrange(start as int, i + 1));
            }
        }
        i = i + 1;
    }
    let ghost done = texts(out@);
    let ghost w = c@.subrange(start as int, c@.len() as int);
    if start < c.len() {
        out.push(string_of(&c, start, c.len()));
        proof {
            assert(done.push(w) =~= done + some_word(w));
        }
    } else {
        proof {
            assert(done =~= done + some_word(w));
        }
    }
    out
}

/// Whether `q` stands in `s` at place `i`.
pub fn is_at(s: &Vec<char>, q: &Vec<char>, i: usize) -> (r: bool)
    ensures
        r == stands_at(s@, q@, i as int),
{
    if q.len() > s.len() || i > s.len() - q.len() {
        return false;
    }
    let mut k: usize = 0;
    while k < q.len()
        invariant
            k <= q@.len(),
            i + q@.len() <= s@.len(),
            s@.len() <= usize::MAX,
            forall|j: int| 0 <= j < k ==> s@[i + j] == q@[j],
        decreases q@.len() - k,
    {
        if s[i + k] != q[k] {
            proof {
                assert(s@.subrange(i as int, i + q@.len())[k as int] != q@[k as int]);
            }
            return false;
        }
        k = k + 1;
    }
    proof {
        assert(s@.subrange(i as int, i + q@.len()) =~= q@);
    }
    true
}

/// The first place where `q` stands in `s`.
pub fn find_in(s: &Vec<char>, q: &Vec<char>) -> (r: Option<usize>)
    ensures
        match r {
            Some(i) => find(s@, q@) == Some(i as int) && i + q@.len() <= s@.len(),
            None => find(s@, q@) is None,
        },
{
    if q.len() > s.len() {
        return None;
    }
    let last: usize = s.len() - q.len();
    let mut i: usize = 0;
    while i < last
        invariant
            i <= last,
            last == s@.len() - q@.len(),
            find(s@, q@) == find_from(s@, q@, i as int),
        decreases last - i,
    {
        if is_at(s, q, i) {
            return Some(i);
        }
        i = i + 1;
    }
    proof {
        assert(find_from(s@, q@, last + 1) is None);
    }
    if is_at(s, q, last) {
        Some(last)
    } else {
        None
    }
}

/// Whether `q` stands anywhere in `s`.
pub fn holds(s: &str, q: &str) -> (r: bool)
    ensures
        r == contains(s@, q@),
{
    find_in(&chars_of(s), &chars_of(q)).is_some()
}

/// Whether `s` begins with `q`.
pub fn starts(s: &str, q: &str) -> (r: bool)
    ensures
        r == begins(s@, q@),
{
    is_at(&chars_of(s), &chars_of(q), 0)
}

/// The text after a prefix, where it has it.
pub fn after_prefix(s: &str, q: &str) -> (r: Option<String>)
    ensures
        match r {
            Some(t) => begins(s@, q@) && t@ == s@.skip(q@.len() as int),
            None => !begins(s@, q@),
        },
{
    let c: Vec<char> = chars_of(s);
    let p: Vec<char> = chars_of(q);
    if is_at(&c, &p, 0) {
        let t = string_of(&c, p.len(), c.len());
        proof {
            assert(t@ =~= s@.skip(q@.len() as int));
        }
        Some(t)
    } else {
        None
    }
}

/// The text before and after the first separator.
pub fn split_once(s: &str, sep: &str) -> (r: Option<(String, String)>)
    ensures
        match r {
            Some(h) => halves(s@, sep@) == Some((h.0@, h.1@)),
            None => halves(s@, sep@) is None,
        },
{
    let c: Vec<char> = chars_of(s);
    let q: Vec<char> = chars_of(sep);
    match find_in(&c, &q) {
        Some(i) => {
            let a = string_of(&c, 0, i);
            let n: usize = c.len();
            let b = string_of(&c, i + q.len(), n);
            proof {
                assert(a@ =~= s@.take(i as int));
                assert(b@ =~= s@.skip(i + sep@.len()));
            }
            Some((a, b))
        },
        None => None,
    }
}

/// The last place that holds a character.
pub fn find_last(s: &Vec<char>, c: char) -> (r: Option<usize>)
    ensures
        match r {
            Some(i) => last_place(s@, c) == Some(i as int) && i < s@.len(),
            None => last_place(s@, c) is None,
        },
{
    let mut i: usize = s.len();
    proof {
        assert(s@.take(i as int) =~= s@);
    }
    while i > 0
        invariant
            i <= s@.len(),
            last_place(s@, c) == last_place(s@.take(i as int), c),
        decreases i,
    {
        i = i - 1;
        proof {
            assert(s@.take(i + 1).drop_last() =~= s@.take(i as int));
        }
        if s[i] == c {
            return Some(i);
        }
    }
    proof {
        assert(s@.take(0).len() == 0);
    }
    None
}

proof fn lemma_numeral_grows(s: Seq<char>, i: int)
    requires
        0 <= i < s.len(),
        is_digit(s[i]),
    ensures
        s.take(i + 1).drop_last() == s.take(i),
        numeral_value(s.take(i + 1)) == 10 * numeral_value(s.take(i)) + (s[i] as int - 48),
{
    assert(s.take(i + 1).drop_last() =~= s.take(i));
}

/// The value of the digits from `from` on, at most `top`.
fn digits_from(c: &Vec<char>, from: usize, top: u64) -> (r: Option<u64>)
    requires
        from <= c@.len(),
    ensures
        ({
            let d = c@.skip(from as int);
            match r {
                Some(v) => d.len() > 0 && only_digits(d) && v == numeral_value(d) && v <= top,
                None => d.len() == 0 || !only_digits(d) || numeral_value(d) > top,
            }
        }),
{
    let ghost d = c@.skip(from as int);
    if from == c.len() {
        return None;
    }
    let mut v: u128 = 0;
    let mut over = false;
    let mut i: usize = from;
    proof {
        assert(d.take(0).len() == 0);
    }
    while i < c.len()
        invariant
            from <= i <= c@.len(),
            d == c@.skip(from as int),
            forall|j: int| 0 <= j < i - from ==> is_digit(#[trigger] d[j]),
            over ==> numeral_value(d.take(i - from)) > top,
            !over ==> v == numeral_value(d.take(i - from)) && v <= top,
        decreases c@.len() - i,
    {
        proof {
            assert(d[i - from] == c@[i as int]);
        }
        if !is_digit_char(c[i]) {
            return None;
        }
        proof {
            lemma_numeral_grows(d, i - from);
        }
        if !over {
            v = 10 * v + (c[i] as u32 - 48) as u128;
            if v > top as u128 {
                over = true;
            }
        }
        i = i + 1;
    }
    proof {
        assert(d.take(d.len() as int) =~= d);
    }
    if over {
        None
    } else {
        Some(v as u64)
    }
}

/// Reads an unsigned integer no greater than `top`.
pub fn parse_unsigned(s: &str, top: u64) -> (r: Option<u64>)
    ensures
        match r {
            Some(v) => unsigned_value(s@, top as nat) == Some(v as nat),
            None => unsigned_value(s@, top as nat) is None,
        },
{
    let c: Vec<char> = chars_of(s);
    let from: usize = if c.len() > 0 && c[0] == '+' {
        1
    } else {
        0
    };
    proof {
        assert(c@.skip(from as int) =~= after_plus(s@));
    }
    digits_from(&c, from, top)
}

/// Reads a `u64`.
pub fn parse_u64(s: &str) -> (r: Option<u64>)
    ensures
        match r {
            Some(v) => unsigned_value(s@, u64::MAX as nat) == Some(v as nat),
            None => unsigned_value(s@, u64::MAX as nat) is None,
        },
{
    parse_unsigned(s, u64::MAX)
}

/// Reads a signed integer in `low..=top`.
fn parse_signed(s: &str, low: i64, top: i64) -> (r: Option<i64>)
    requires
        low < 0 <= top,
    ensures
        match r {
            Some(v) => signed_value(s@, low as int, top as int) == Some(v as int),
            None => signed_value(s@, low as int, top as int) is None,
        },
{
    let c: Vec<char> = chars_of(s);
    let neg = c.len() > 0 && c[0] == '-';
    let from: usize = if c.len() > 0 && (c[0] == '+' || c[0] == '-') {
        1
    } else {
        0
    };
    let limit: u64 = if neg {
        (-(low + 1)) as u64 + 1
    } else {
        top as u64
    };
    proof {
        assert(c@.skip(0) =~= c@);
    }
    match digits_from(&c, from, limit) {
        Some(v) => {
            if neg {
                if v == 0x8000_0000_0000_0000 {
                    Some(i64::MIN)
                } else {
                    Some(-(v as i64))
                }
            } else {
                Some(v as i64)
            }
        },
        None => None,
    }
}

/// Reads an `i64`.
pub fn parse_i64(s: &str) -> (r: Option<i64>)
    ensures
        match r {
            Some(v) => signed_value(s@, i64::MIN as int, i64::MAX as int) == Some(v as int),
            None => signed_value(s@, i64::MIN as int, i64::MAX as int) is None,
        },
{
    parse_signed(s, i64::MIN, i64::MAX)
}

/// Reads an `i32`.
pub fn parse_i32(s: &str) -> (r: Option<i32>)
    ensures
        match r {
            Some(v) => signed_value(s@, i32::MIN as int, i32::MAX as int) == Some(v as int),
            None => signed_value(s@, i32::MIN as int, i32::MAX as int) is None,
        },
{
    match parse_signed(s, i32::MIN as i64, i32::MAX as i64) {
        Some(v) => Some(v as i32),
        None => None,
    }
}

/// Whether some stretch of `s` is `q`.
pub open spec fn occurs(s: Seq<char>, q: Seq<char>) -> bool {
    exists|i: int| 0 <= i <= s.len() - q.len() && #[trigger] s.subrange(i, i + q.len()) == q
}

proof fn lemma_find_from(s: Seq<char>, q: Seq<char>, i: int)
    requires
        0 <= i,
    ensures
        match find_from(s, q, i) {
            Some(k) => i <= k <= s.len() - q.len() && s.subrange(k, k + q.len()) == q && forall|j: int|
                i <= j < k ==> #[trigger] s.subrange(j, j + q.len()) != q,
            None => forall|j: int| i <= j <= s.len() - q.len() ==> #[trigger] s.subrange(j, j + q.len()) != q,
        },
    decreases s.len() - i + 1,
{
    if i + q.len() <= s.len() && !stands_at(s, q, i) {
        lemma_find_from(s, q, i + 1);
        assert(s.subrange(i, i + q.len()) != q);
    }
}

/// A text is found where some stretch of another is that text, and the first
/// such place is told.
pub proof fn lemma_found(s: Seq<char>, q: Seq<char>)
    ensures
        contains(s, q) == occurs(s, q),
        match find(s, q) {
            Some(k) => 0 <= k <= s.len() - q.len() && s.subrange(k, k + q.len()) == q && forall|j: int|
                0 <= j < k ==> #[trigger] s.subrange(j, j + q.len()) != q,
            None => !occurs(s, q),
        },
{
    lemma_find_from(s, q, 0);
}

} // verus!
