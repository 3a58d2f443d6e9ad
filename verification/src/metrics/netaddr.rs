//! The text of network addresses.

use crate::chars::{group_texts, join, joined, numeral, push_numeral, texts};
use vstd::prelude::*;
use vstd::string::StringExecFns;

verus! {

/// A lower-case hexadecimal digit.
pub open spec fn hex_digit(d: nat) -> char {
    if d < 10 {
        (48 + d) as u8 as char
    } else {
        (87 + d) as u8 as char
    }
}

/// A lower-case hexadecimal numeral.
pub open spec fn hex(n: nat) -> Seq<char>
    decreases n,
{
    if n < 16 {
        seq![hex_digit(n)]
    } else {
        hex(n / 16).push(hex_digit(n % 16))
    }
}

/// An IPv4 address: four numbers with dots between them.
pub open spec fn ipv4_text(a: u8, b: u8, c: u8, d: u8) -> Seq<char> {
    numeral(a as nat) + seq!['.'] + numeral(b as nat) + seq!['.'] + numeral(c as nat) + seq!['.'] + numeral(d as nat)
}

/// A 16-bit group of an IPv6 address.
pub open spec fn group(o: Seq<u8>, i: int) -> nat {
    o[2 * i] as nat * 256 + o[2 * i + 1] as nat
}

/// Runs of zero groups among the first `i`: where the current one begins and
/// how long it is, and the same of the longest, the first where several are.
pub struct Runs {
    pub start: int,
    pub len: int,
    pub best_start: int,
    pub best_len: int,
}

pub open spec fn zero_runs(o: Seq<u8>, i: nat) -> Runs
    decreases i,
{
    if i == 0 {
        Runs { start: 0, len: 0, best_start: 0, best_len: 0 }
    } else {
        let b = zero_runs(o, (i - 1) as nat);
        if group(o, i - 1) != 0 {
            Runs { start: 0, len: 0, best_start: b.best_start, best_len: b.best_len }
        } else {
            let start = if b.len == 0 {
                i - 1
            } else {
                b.start
            };
            let len = b.len + 1;
            if len > b.best_len {
                Runs { start, len, best_start: start, best_len: len }
            } else {
                Runs { start, len, best_start: b.best_start, best_len: b.best_len }
            }
        }
    }
}

/// The groups `from..to` with colons between them.
pub open spec fn groups_text(o: Seq<u8>, from: int, to: int) -> Seq<char> {
    joined(Seq::new((to - from) as nat, |k: int| hex(group(o, from + k))), seq![':'])
}

/// Whether an IPv6 address stands for an IPv4 address.
pub open spec fn mapped(o: Seq<u8>) -> bool {
    (forall|i: int| 0 <= i < 5 ==> #[trigger] group(o, i) == 0) && group(o, 5) == 0xffff
}

/// An IPv6 address: eight hexadecimal groups with colons between them, the
/// first longest run of at least two zero groups left out; an IPv4 address in
/// its own form where it stands for one.
pub open spec fn ipv6_text(o: Seq<u8>) -> Seq<char> {
    let r = zero_runs(o, 8);
    if mapped(o) {
        "::ffff:"@ + ipv4_text(o[12], o[13], o[14], o[15])
    } else if r.best_len > 1 {
        groups_text(o, 0, r.best_start) + "::"@ + groups_text(o, r.best_start + r.best_len, 8)
    } else {
        groups_text(o, 0, 8)
    }
}

fn push_hex(out: &mut String, n: u32)
    ensures
        final(out)@ == old(out)@ + hex(n as nat),
    decreases n,
{
    if n >= 16 {
        push_hex(out, n / 16);
    }
    let d: u32 = n % 16;
    if d < 10 {
        out.push((48u8 + d as u8) as char);
    } else {
        out.push((87u8 + d as u8) as char);
    }
    proof {
        assert(out@ =~= old(out)@ + hex(n as nat));
    }
}

/// The text of an IPv4 address.
pub fn ipv4(a: u8, b: u8, c: u8, d: u8) -> (r: String)
    ensures
        r@ == ipv4_text(a, b, c, d),
{
    let mut out = String::new();
    push_numeral(&mut out, a as u64);
    out.push('.');
    push_numeral(&mut out, b as u64);
    out.push('.');
    push_numeral(&mut out, c as u64);
    out.push('.');
    push_numeral(&mut out, d as u64);
    proof {
        assert(out@ =~= ipv4_text(a, b, c, d));
    }
    out
}

fn group_at(o: &Vec<u8>, i: usize) -> (r: u32)
    requires
        i < 8,
        o@.len() == 16,
    ensures
        r == group(o@, i as int),
{
    o[2 * i] as u32 * 256 + o[2 * i + 1] as u32
}

fn groups(o: &Vec<u8>, from: usize, to: usize) -> (r: String)
    requires
        from <= to <= 8,
        o@.len() == 16,
    ensures
        r@ == groups_text(o@, from as int, to as int),
{
    broadcast use group_texts;

    let mut parts: Vec<String> = Vec::new();
    let mut i: usize = from;
    while i < to
        invariant
            from <= i <= to <= 8,
            o@.len() == 16,
            texts(parts@) =~= Seq::new((i - from) as nat, |k: int| hex(group(o@, from + k))),
        decreases to - i,
    {
        broadcast use group_texts;

        let mut one = String::new();
        push_hex(&mut one, group_at(o, i));
        proof {
            assert(one@ =~= hex(group(o@, i as int)));
        }
        parts.push(one);
        i = i + 1;
    }
    proof {
        reveal_strlit(":");
        assert(":"@ =~= seq![':']);
    }
    join(&parts, ":")
}

/// The text of an IPv6 address of sixteen bytes.
pub fn ipv6(o: &Vec<u8>) -> (r: String)
    requires
        o@.len() == 16,
    ensures
        r@ == ipv6_text(o@),
{
    let mut map4 = group_at(o, 5) == 0xffff;
    let mut i: usize = 0;
    while i < 5
        invariant
            i <= 5,
            o@.len() == 16,
            map4 == (group(o@, 5) == 0xffff && forall|k: int| 0 <= k < i ==> #[trigger] group(o@, k) == 0),
        decreases 5 - i,
    {
        map4 = map4 && group_at(o, i) == 0;
        i = i + 1;
    }
    if map4 {
        let mut out = "::ffff:".to_owned();
        out.append(ipv4(o[12], o[13], o[14], o[15]).as_str());
        return out;
    }
    let mut start: usize = 0;
    let mut len: usize = 0;
    let mut best_start: usize = 0;
    let mut best_len: usize = 0;
    let mut k: usize = 0;
    while k < 8
        invariant
            k <= 8,
            o@.len() == 16,
            start == zero_runs(o@, k as nat).start,
            len == zero_runs(o@, k as nat).len,
            best_start == zero_runs(o@, k as nat).best_start,
            best_len == zero_runs(o@, k as nat).best_len,
            len <= k,
            len > 0 ==> start + len == k,
            best_start + best_len <= k,
        decreases 8 - k,
    {
        if group_at(o, k) == 0 {
            if len == 0 {
                start = k;
            }
            len = len + 1;
            if len > best_len {
                best_start = start;
                best_len = len;
            }
        } else {
            start = 0;
            len = 0;
        }
        k = k + 1;
    }
    if best_len > 1 {
        let mut out = groups(o, 0, best_start);
        out.append("::");
        out.append(groups(o, best_start + best_len, 8).as_str());
        out
    } else {
        groups(o, 0, 8)
    }
}

/// What a hexadecimal digit stands for.
pub open spec fn hex_value(c: char) -> int {
    if '0' <= c <= '9' {
        c as int - '0' as int
    } else {
        c as int - 'a' as int + 10
    }
}

/// A hexadecimal numeral is made of lower-case digits, begins with no zero that
/// it could do without, and its last digit counts ones, the rest sixteens.
pub proof fn lemma_hex_digits(n: nat)
    ensures
        hex(n).len() >= 1,
        forall|i: int|
            0 <= i < hex(n).len() ==> ('0' <= #[trigger] hex(n)[i] <= '9' || 'a' <= hex(n)[i] <= 'f'),
        hex(n)[0] == '0' ==> n == 0,
        n < 16 ==> hex(n).len() == 1 && hex_value(hex(n)[0]) == n,
        n >= 16 ==> hex(n).drop_last() == hex(n / 16) && hex_value(hex(n).last()) == n - 16 * (n / 16),
    decreases n,
{
    if n >= 16 {
        lemma_hex_digits(n / 16);
        assert(hex(n).drop_last() =~= hex(n / 16));
        assert forall|i: int| 0 <= i < hex(n).len() implies ('0' <= #[trigger] hex(n)[i] <= '9' || 'a' <= hex(n)[i]
            <= 'f') by {
            if i < hex(n / 16).len() {
                assert(hex(n)[i] == hex(n / 16)[i]);
            }
        }
        assert(hex(n)[0] == hex(n / 16)[0]);
    }
}

/// Different numbers have different numerals.
pub proof fn lemma_hex_tells(m: nat, n: nat)
    requires
        hex(m) == hex(n),
    ensures
        m == n,
    decreases m,
{
    lemma_hex_digits(m);
    lemma_hex_digits(n);
    if m >= 16 {
        lemma_hex_digits(m / 16);
    }
    if n >= 16 {
        lemma_hex_digits(n / 16);
    }
    if m >= 16 && n >= 16 {
        lemma_hex_tells(m / 16, n / 16);
    }
}

/// Whether the groups `s..s + l` are all zero.
pub open spec fn zeros(o: Seq<u8>, s: int, l: int) -> bool {
    forall|k: int| s <= k < s + l ==> #[trigger] group(o, k) == 0
}

proof fn lemma_runs(o: Seq<u8>, i: nat)
    ensures
        ({
            let r = zero_runs(o, i);
            &&& 0 <= r.len <= i
            &&& r.len > 0 ==> r.start == i - r.len
            &&& zeros(o, i - r.len, r.len)
            &&& r.len < i ==> group(o, i - r.len - 1) != 0
            &&& 0 <= r.best_start
            &&& 0 <= r.best_len
            &&& r.best_start + r.best_len <= i
            &&& zeros(o, r.best_start, r.best_len)
            &&& forall|s: int, l: int|
                0 <= s && 0 < l && s + l <= i && #[trigger] zeros(o, s, l) ==> l < r.best_len || (l == r.best_len
                    && r.best_start <= s)
        }),
    decreases i,
{
    if i > 0 {
        lemma_runs(o, (i - 1) as nat);
        let b = zero_runs(o, (i - 1) as nat);
        let r = zero_runs(o, i);
        assert forall|s: int, l: int|
            0 <= s && 0 < l && s + l <= i && #[trigger] zeros(o, s, l) implies l < r.best_len || (l == r.best_len
            && r.best_start <= s) by {
            if s + l <= i - 1 {
            } else {
                assert(group(o, i - 1) == 0);
                if l > r.len {
                    assert(group(o, i - 1 - b.len - 1) != 0);
                    assert(s <= i - 1 - b.len - 1 < s + l);
                    assert(false);
                }
            }
        }
    }
}

/// An IPv6 address that stands for no IPv4 address leaves out its longest run
/// of at least two zero groups, the first where several are as long, and writes
/// the groups before and behind it.
pub proof fn lemma_longest_run_left_out(o: Seq<u8>, s: int, l: int)
    requires
        o.len() == 16,
        !mapped(o),
        0 <= s,
        l >= 2,
        s + l <= 8,
        zeros(o, s, l),
        forall|t: int, m: int|
            0 <= t && 0 < m && t + m <= 8 && #[trigger] zeros(o, t, m) ==> m < l || (m == l && s <= t),
    ensures
        ipv6_text(o) == joined(Seq::new(s as nat, |k: int| hex(group(o, k))), seq![':']) + seq![':', ':'] + joined(
            Seq::new((8 - s - l) as nat, |k: int| hex(group(o, s + l + k))),
            seq![':'],
        ),
{
    lemma_runs(o, 8);
    let r = zero_runs(o, 8);
    assert(zeros(o, r.best_start, r.best_len));
    assert(r.best_len == l && r.best_start == s);
    reveal_strlit("::");
    assert("::"@ =~= seq![':', ':']);
    assert(Seq::new((s - 0) as nat, |k: int| hex(group(o, 0 + k))) =~= Seq::new(s as nat, |k: int| hex(group(o, k))));
    assert(Seq::new((8 - (s + l)) as nat, |k: int| hex(group(o, s + l + k))) =~= Seq::new(
        (8 - s - l) as nat,
        |k: int| hex(group(o, s + l + k)),
    ));
}

/// An IPv6 address without two zero groups side by side writes them all.
pub proof fn lemma_all_groups_written(o: Seq<u8>)
    requires
        o.len() == 16,
        forall|i: int| 0 <= i < 7 ==> !(#[trigger] group(o, i) == 0 && group(o, i + 1) == 0),
    ensures
        ipv6_text(o) == joined(Seq::new(8, |k: int| hex(group(o, k))), seq![':']),
{
    lemma_runs(o, 8);
    let r = zero_runs(o, 8);
    assert(!(group(o, 0) == 0 && group(o, 1) == 0));
    if r.best_len > 1 {
        assert(group(o, r.best_start) == 0);
        assert(group(o, r.best_start + 1) == 0);
        assert(false);
    }
    assert(Seq::new((8 - 0) as nat, |k: int| hex(group(o, 0 + k))) =~= Seq::new(8, |k: int| hex(group(o, k))));
}

/// An IPv6 address that stands for an IPv4 address shows that address.
pub proof fn lemma_mapped_shown(o: Seq<u8>)
    requires
        o.len() == 16,
        forall|i: int| 0 <= i < 10 ==> #[trigger] o[i] == 0,
        o[10] == 0xff,
        o[11] == 0xff,
    ensures
        ipv6_text(o) == "::ffff:"@ + numeral(o[12] as nat) + seq!['.'] + numeral(o[13] as nat) + seq!['.'] + numeral(
            o[14] as nat,
        ) + seq!['.'] + numeral(o[15] as nat),
{
    assert(mapped(o)) by {
        assert forall|i: int| 0 <= i < 5 implies #[trigger] group(o, i) == 0 by {
            assert(o[2 * i] == 0 && o[2 * i + 1] == 0);
        }
    }
    let t = "::ffff:"@;
    assert(ipv6_text(o) =~= t + numeral(o[12] as nat) + seq!['.'] + numeral(o[13] as nat) + seq!['.'] + numeral(
        o[14] as nat,
    ) + seq!['.'] + numeral(o[15] as nat));
}

} // verus!
