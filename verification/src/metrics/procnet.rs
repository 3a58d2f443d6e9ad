//! Attributes live per-connection network throughput to processes: from the
//! kernel's socket diagnostics plus the owners of socket inodes, or from
//! `nettop`'s report. Successive cumulative samples are diffed into rates.

use super::netaddr::{ipv4, ipv4_text, ipv6, ipv6_text};
use super::{counter_delta, delta, elapsed, lemma_paced, lemma_seconds_value, paced, per_second, rate, seconds};
use crate::chars::{chars_of, joined3, numeral, push_numeral, same, signed_numeral, signed_numeral_of, string_of, texts};
use crate::num::Num;
use crate::scan::{
    after_prefix, begins, contains, find, find_in, find_last, holds, last_place, lines, parse_i32, parse_u64, parse_unsigned, pieces,
    signed_value, split_at_each, split_lines, unsigned_value,
};
use vstd::prelude::*;
use vstd::string::StringExecFns;

verus! {

/// One live connection's current throughput, attributed to its owning process.
#[derive(Debug)]
pub struct ProcConn {
    pub pid: i32,
    pub name: String,
    /// e.g. `140.82.121.4:443`
    pub remote: String,
    /// TCP state, e.g. `ESTABLISHED`
    pub state: String,
    pub rx_per_sec: Num,
    pub tx_per_sec: Num,
}

impl ProcConn {
    /// The same again.
    pub fn copy(&self) -> (r: ProcConn)
        ensures
            r == *self,
    {
        ProcConn {
            pid: self.pid,
            name: self.name.clone(),
            remote: self.remote.clone(),
            state: self.state.clone(),
            rx_per_sec: self.rx_per_sec,
            tx_per_sec: self.tx_per_sec,
        }
    }
}

/// A TCP socket with its cumulative bytes sent and received.
pub struct SockSample {
    pub inode: u32,
    pub tx: u64,
    pub rx: u64,
    pub remote: String,
    pub state: String,
}

/// What a socket sample says.
#[verifier::ext_equal]
pub struct SockText {
    pub inode: u32,
    pub tx: u64,
    pub rx: u64,
    pub remote: Seq<char>,
    pub state: Seq<char>,
}

impl View for SockSample {
    type V = SockText;

    open spec fn view(&self) -> SockText {
        SockText { inode: self.inode, tx: self.tx, rx: self.rx, remote: self.remote@, state: self.state@ }
    }
}

/// What a list of socket samples says.
pub open spec fn sock_texts(v: Seq<SockSample>) -> Seq<SockText> {
    Seq::new(v.len(), |i: int| v[i]@)
}

/// Linux address families and message numbers.
pub const AF_INET: u8 = 2;

pub const AF_INET6: u8 = 10;

pub const IPPROTO_TCP: u8 = 6;

pub const SOCK_DIAG_BY_FAMILY: u16 = 20;

pub const INET_DIAG_INFO: u16 = 2;

pub const NLM_F_REQUEST: u16 = 1;

pub const NLM_F_DUMP: u16 = 0x300;

pub const NLMSG_ERROR: u16 = 2;

pub const NLMSG_DONE: u16 = 3;

/// A 16-bit number at a place, in the machine's byte order.
pub open spec fn u16_at(d: Seq<u8>, i: int, little: bool) -> nat {
    if little {
        d[i] as nat + 256 * d[i + 1] as nat
    } else {
        256 * d[i] as nat + d[i + 1] as nat
    }
}

/// A 32-bit number at a place.
pub open spec fn u32_at(d: Seq<u8>, i: int, little: bool) -> nat {
    if little {
        u16_at(d, i, little) + 0x1_0000 * u16_at(d, i + 2, little)
    } else {
        0x1_0000 * u16_at(d, i, little) + u16_at(d, i + 2, little)
    }
}

/// A 64-bit number at a place.
pub open spec fn u64_at(d: Seq<u8>, i: int, little: bool) -> nat {
    if little {
        u32_at(d, i, little) + 0x1_0000_0000 * u32_at(d, i + 4, little)
    } else {
        0x1_0000_0000 * u32_at(d, i, little) + u32_at(d, i + 4, little)
    }
}

fn read_u16(d: &Vec<u8>, i: usize, little: bool) -> (r: u16)
    requires
        i + 2 <= d@.len(),
    ensures
        r == u16_at(d@, i as int, little),
{
    let n: usize = d.len();
    if little {
        d[i] as u16 + 256 * d[i + 1] as u16
    } else {
        256 * d[i] as u16 + d[i + 1] as u16
    }
}

fn read_u32(d: &Vec<u8>, i: usize, little: bool) -> (r: u32)
    requires
        i + 4 <= d@.len(),
    ensures
        r == u32_at(d@, i as int, little),
{
    let n: usize = d.len();
    let a: u32 = read_u16(d, i, little) as u32;
    let b: u32 = read_u16(d, i + 2, little) as u32;
    if little {
        a + 0x1_0000 * b
    } else {
        0x1_0000 * a + b
    }
}

fn read_u64(d: &Vec<u8>, i: usize, little: bool) -> (r: u64)
    requires
        i + 8 <= d@.len(),
    ensures
        r == u64_at(d@, i as int, little),
{
    let n: usize = d.len();
    let a: u64 = read_u32(d, i, little) as u64;
    let b: u64 = read_u32(d, i + 4, little) as u64;
    if little {
        a + 0x1_0000_0000 * b
    } else {
        0x1_0000_0000 * a + b
    }
}

/// The name of a TCP state.
pub open spec fn state_name(s: u8) -> Seq<char> {
    if s == 1 {
        "ESTABLISHED"@
    } else if s == 2 {
        "SYN_SENT"@
    } else if s == 3 {
        "SYN_RECV"@
    } else if s == 4 {
        "FIN_WAIT1"@
    } else if s == 5 {
        "FIN_WAIT2"@
    } else if s == 6 {
        "TIME_WAIT"@
    } else if s == 7 {
        "CLOSE"@
    } else if s == 8 {
        "CLOSE_WAIT"@
    } else if s == 9 {
        "LAST_ACK"@
    } else if s == 10 {
        "LISTEN"@
    } else if s == 11 {
        "CLOSING"@
    } else {
        ""@
    }
}

/// The name of a TCP state; empty for one without a name.
pub fn tcp_state_name(s: u8) -> (r: String)
    ensures
        r@ == state_name(s),
{
    let name = if s == 1 {
        "ESTABLISHED"
    } else if s == 2 {
        "SYN_SENT"
    } else if s == 3 {
        "SYN_RECV"
    } else if s == 4 {
        "FIN_WAIT1"
    } else if s == 5 {
        "FIN_WAIT2"
    } else if s == 6 {
        "TIME_WAIT"
    } else if s == 7 {
        "CLOSE"
    } else if s == 8 {
        "CLOSE_WAIT"
    } else if s == 9 {
        "LAST_ACK"
    } else if s == 10 {
        "LISTEN"
    } else if s == 11 {
        "CLOSING"
    } else {
        ""
    };
    name.to_owned()
}

/// A byte of a dump request for the TCP sockets of a family: the message
/// header, then family, protocol, the wanted extension and all states.
pub open spec fn request_byte(i: int, family: u8, little: bool) -> u8 {
    if i == 0 {
        if little {
            72
        } else {
            0
        }
    } else if i == 3 {
        if little {
            0
        } else {
            72
        }
    } else if i == 4 {
        if little {
            20
        } else {
            0
        }
    } else if i == 5 {
        if little {
            0
        } else {
            20
        }
    } else if i == 6 {
        if little {
            1
        } else {
            3
        }
    } else if i == 7 {
        if little {
            3
        } else {
            1
        }
    } else if i == 16 {
        family
    } else if i == 17 {
        IPPROTO_TCP
    } else if i == 18 {
        2
    } else if 20 <= i < 24 {
        0xff
    } else {
        0
    }
}

/// The request for a dump of the TCP sockets of a family.
pub fn build_diag_req(family: u8, little: bool) -> (r: Vec<u8>)
    ensures
        r@.len() == 72,
        forall|i: int| 0 <= i < 72 ==> #[trigger] r@[i] == request_byte(i, family, little),
        u32_at(r@, 0, little) == 72,
        u16_at(r@, 4, little) == SOCK_DIAG_BY_FAMILY,
        u16_at(r@, 6, little) == NLM_F_REQUEST + NLM_F_DUMP,
        u32_at(r@, 20, little) == u32::MAX,
{
    let mut b: Vec<u8> = Vec::new();
    while b.len() < 72
        invariant
            b@.len() <= 72,
            forall|i: int| 0 <= i < b@.len() ==> b@[i] == 0,
        decreases 72 - b@.len(),
    {
        b.push(0);
    }
    if little {
        b.set(0, 72);
        b.set(4, 20);
        b.set(6, 1);
        b.set(7, 3);
    } else {
        b.set(3, 72);
        b.set(5, 20);
        b.set(6, 3);
        b.set(7, 1);
    }
    b.set(16, family);
    b.set(17, IPPROTO_TCP);
    b.set(18, 2);
    b.set(20, 0xff);
    b.set(21, 0xff);
    b.set(22, 0xff);
    b.set(23, 0xff);
    b
}

/// A length rounded up to a multiple of four.
pub open spec fn align4(n: nat) -> nat {
    (n + 3) / 4 * 4
}

/// The bytes sent and received in the attributes from `off` on, where they are
/// told.
pub open spec fn info_bytes(d: Seq<u8>, off: int, little: bool, tx: nat, rx: nat) -> (nat, nat)
    decreases d.len() + 4 - off,
{
    let alen = u16_at(d, off, little);
    if off < 0 || off + 4 > d.len() || alen < 4 || off + alen > d.len() {
        (tx, rx)
    } else if u16_at(d, off + 2, little) == INET_DIAG_INFO && alen >= 140 {
        info_bytes(
            d,
            off + align4(alen),
            little,
            u64_at(d, off + 124, little),
            u64_at(d, off + 132, little),
        )
    } else {
        info_bytes(d, off + align4(alen), little, tx, rx)
    }
}

/// The far end of a socket: nothing where it has none.
pub open spec fn remote_text(d: Seq<u8>, family: u8) -> Seq<char> {
    let port = u16_at(d, 6, false);
    if port == 0 {
        seq![]
    } else if family == AF_INET {
        ipv4_text(d[24], d[25], d[26], d[27]) + seq![':'] + numeral(port)
    } else if family == AF_INET6 {
        seq!['['] + ipv6_text(d.subrange(24, 40)) + seq![']', ':'] + numeral(port)
    } else {
        seq![]
    }
}

/// The socket that a diagnostics message tells of.
pub open spec fn diag_text(d: Seq<u8>, family: u8, little: bool) -> Option<SockText> {
    if d.len() < 72 || u32_at(d, 68, little) == 0 {
        None
    } else {
        let (tx, rx) = info_bytes(d, 72, little, 0, 0);
        Some(
            SockText {
                inode: u32_at(d, 68, little) as u32,
                tx: tx as u64,
                rx: rx as u64,
                remote: remote_text(d, family),
                state: state_name(d[1]),
            },
        )
    }
}

/// What a netlink packet tells: its sockets, and whether the dump is over.
pub struct Packet {
    pub socks: Seq<SockText>,
    pub over: bool,
}

/// What a packet tells from `off` on.
pub open spec fn packet_from(d: Seq<u8>, off: int, family: u8, little: bool) -> Packet
    decreases d.len() + 4 - off,
{
    let len = u32_at(d, off, little);
    let kind = u16_at(d, off + 4, little);
    if off < 0 || off + 16 > d.len() || len < 16 || off + len > d.len() {
        Packet { socks: seq![], over: false }
    } else if kind == NLMSG_DONE || kind == NLMSG_ERROR {
        Packet { socks: seq![], over: true }
    } else {
        let rest = packet_from(d, off + align4(len), family, little);
        match diag_text(d.subrange(off + 16, off + len), family, little) {
            Some(s) => Packet { socks: seq![s] + rest.socks, over: rest.over },
            None => rest,
        }
    }
}

fn round4(n: usize) -> (r: usize)
    requires
        n + 3 <= usize::MAX,
    ensures
        r == align4(n as nat),
        n <= r <= n + 3,
{
    (n + 3) / 4 * 4
}

fn part_of(d: &Vec<u8>, from: usize, to: usize) -> (r: Vec<u8>)
    requires
        from <= to <= d@.len(),
    ensures
        r@ == d@.subrange(from as int, to as int),
{
    let mut out: Vec<u8> = Vec::new();
    let mut i: usize = from;
    while i < to
        invariant
            from <= i <= to <= d@.len(),
            out@ =~= d@.subrange(from as int, i as int),
        decreases to - i,
    {
        out.push(d[i]);
        i = i + 1;
    }
    out
}

fn remote_of(d: &Vec<u8>, family: u8) -> (r: String)
    requires
        d@.len() >= 72,
    ensures
        r@ == remote_text(d@, family),
{
    let port: u16 = read_u16(d, 6, false);
    let mut out = String::new();
    if port != 0 {
        if family == AF_INET {
            out = ipv4(d[24], d[25], d[26], d[27]);
            out.push(':');
            push_numeral(&mut out, port as u64);
            proof {
                assert(out@ =~= remote_text(d@, family));
            }
            return out;
        }
        if family == AF_INET6 {
            out.push('[');
            out.append(ipv6(&part_of(d, 24, 40)).as_str());
            out.push(']');
            out.push(':');
            push_numeral(&mut out, port as u64);
            proof {
                assert(out@ =~= remote_text(d@, family));
            }
            return out;
        }
    }
    proof {
        assert(out@ =~= seq![]);
    }
    out
}

/// Reads one diagnostics message.
pub fn parse_diag_msg(family: u8, d: &Vec<u8>, little: bool) -> (r: Option<SockSample>)
    ensures
        match r {
            Some(s) => diag_text(d@, family, little) == Some(s@),
            None => diag_text(d@, family, little) is None,
        },
{
    if d.len() < 72 {
        return None;
    }
    let inode: u32 = read_u32(d, 68, little);
    if inode == 0 {
        return None;
    }
    let mut tx: u64 = 0;
    let mut rx: u64 = 0;
    let mut off: usize = 72;
    let n: usize = d.len();
    let mut more = true;
    while more && n - off >= 4
        invariant
            n == d@.len(),
            72 <= off <= n,
            !more ==> info_bytes(d@, 72, little, 0, 0) == (tx as nat, rx as nat),
            more ==> info_bytes(d@, 72, little, 0, 0) == info_bytes(d@, off as int, little, tx as nat, rx as nat),
        decreases n + 4 - off + if more {
            1int
        } else {
            0
        },
    {
        let alen: usize = read_u16(d, off, little) as usize;
        let atype: u16 = read_u16(d, off + 2, little);
        if alen < 4 || alen > n - off {
            more = false;
        } else {
            if atype == INET_DIAG_INFO && alen >= 140 {
                tx = read_u64(d, off + 124, little);
                rx = read_u64(d, off + 132, little);
            }
            if n - off - alen < 4 {
                proof {
                    assert(info_bytes(d@, off + align4(alen as nat), little, tx as nat, rx as nat) == (tx as nat, rx as nat));
                }
                more = false;
            } else {
                off = off + round4(alen);
            }
        }
    }
    Some(SockSample { inode, tx, rx, remote: remote_of(d, family), state: tcp_state_name(d[1]) })
}

/// Reads one netlink packet, appending the sockets it tells of. Returns
/// whether the dump is over.
pub fn parse_netlink(d: &Vec<u8>, family: u8, little: bool, out: &mut Vec<SockSample>) -> (r: bool)
    ensures
        sock_texts(final(out)@) == sock_texts(old(out)@) + packet_from(d@, 0, family, little).socks,
        r == packet_from(d@, 0, family, little).over,
{
    let n: usize = d.len();
    let mut off: usize = 0;
    let ghost goal = sock_texts(out@) + packet_from(d@, 0, family, little).socks;
    while n - off >= 16
        invariant
            n == d@.len(),
            off <= n,
            goal == sock_texts(old(out)@) + packet_from(d@, 0, family, little).socks,
            goal == sock_texts(out@) + packet_from(d@, off as int, family, little).socks,
            packet_from(d@, 0, family, little).over == packet_from(d@, off as int, family, little).over,
        decreases n + 4 - off,
    {
        let len: u32 = read_u32(d, off, little);
        let kind: u16 = read_u16(d, off + 4, little);
        if len < 16 || len as u64 > (n - off) as u64 {
            proof {
                assert(sock_texts(out@) + seq![] =~= sock_texts(out@));
            }
            return false;
        }
        if kind == NLMSG_DONE || kind == NLMSG_ERROR {
            proof {
                assert(sock_texts(out@) + seq![] =~= sock_texts(out@));
            }
            return true;
        }
        let len: usize = len as usize;
        let msg: Vec<u8> = part_of(d, off + 16, off + len);
        let ghost before = sock_texts(out@);
        let ghost rest = packet_from(d@, off + align4(len as nat), family, little).socks;
        if let Some(s) = parse_diag_msg(family, &msg, little) {
            let ghost one = s@;
            out.push(s);
            proof {
                assert(sock_texts(out@) =~= before.push(one));
                assert(before + (seq![one] + rest) =~= before.push(one) + rest);
            }
        }
        if n - off - len < 16 {
            proof {
                assert(rest =~= seq![]);
                assert(sock_texts(out@) + rest =~= sock_texts(out@));
            }
            return false;
        }
        off = off + round4(len);
    }
    proof {
        assert(sock_texts(out@) + seq![] =~= sock_texts(out@));
    }
    false
}

/// The inode in the link of an open socket, `socket:[inode]`.
pub open spec fn link_inode(link: Seq<char>) -> Option<nat> {
    let rest = link.skip(8);
    if begins(link, "socket:["@) && rest.len() > 0 && rest.last() == ']' {
        unsigned_value(rest.drop_last(), u32::MAX as nat)
    } else {
        None
    }
}

/// The inode of an open socket from the link of its file descriptor.
pub fn socket_inode(link: &str) -> (r: Option<u32>)
    ensures
        match r {
            Some(n) => link_inode(link@) == Some(n as nat),
            None => link_inode(link@) is None,
        },
{
    proof {
        reveal_strlit("socket:[");
    }
    if let Some(rest) = after_prefix(link, "socket:[") {
        let c: Vec<char> = chars_of(rest.as_str());
        if c.len() > 0 && c[c.len() - 1] == ']' {
            let num = string_of(&c, 0, c.len() - 1);
            proof {
                assert(num@ =~= rest@.drop_last());
            }
            return match parse_unsigned(num.as_str(), u32::MAX as u64) {
                Some(n) => Some(n as u32),
                None => None,
            };
        }
    }
    None
}

/// A process that holds a socket open, by the socket's inode.
pub struct Owner {
    pub inode: u32,
    pub pid: i32,
    pub name: String,
}

/// The last owner of a socket.
pub open spec fn owner_of(v: Seq<Owner>, inode: u32) -> Option<Owner>
    decreases v.len(),
{
    if v.len() == 0 {
        None
    } else if v.last().inode == inode {
        Some(v.last())
    } else {
        owner_of(v.drop_last(), inode)
    }
}

/// The last sample of a socket.
pub open spec fn sock_of(v: Seq<SockSample>, inode: u32) -> Option<SockSample>
    decreases v.len(),
{
    if v.len() == 0 {
        None
    } else if v.last().inode == inode {
        Some(v.last())
    } else {
        sock_of(v.drop_last(), inode)
    }
}

/// Whether the `i`-th sample is the last of its socket.
pub open spec fn last_sock(v: Seq<SockSample>, i: int) -> bool {
    forall|j: int| i < j < v.len() ==> (#[trigger] v[j]).inode != v[i].inode
}

/// Whether a connected socket has carried anything since its previous sample.
pub open spec fn sock_active(c: SockSample, prev: Seq<SockSample>) -> bool {
    match sock_of(prev, c.inode) {
        Some(p) => (delta(c.tx, p.tx) > 0 || delta(c.rx, p.rx) > 0) && c.remote@.len() > 0,
        None => false,
    }
}

/// The connection of an active socket.
pub open spec fn conn_of(c: SockSample, prev: Seq<SockSample>, o: Owner, dt: Num) -> ProcConn {
    let p = sock_of(prev, c.inode)->0;
    ProcConn {
        pid: o.pid,
        name: o.name,
        remote: c.remote,
        state: c.state,
        rx_per_sec: per_second(delta(c.rx, p.rx), dt),
        tx_per_sec: per_second(delta(c.tx, p.tx), dt),
    }
}

/// The connections among the first `n` samples: active sockets whose owner is
/// known. Of several samples of a socket the last counts.
pub open spec fn conn_list(v: Seq<SockSample>, prev: Seq<SockSample>, owners: Seq<Owner>, dt: Num, n: nat) -> Seq<ProcConn>
    decreases n,
{
    if n == 0 {
        seq![]
    } else {
        let before = conn_list(v, prev, owners, dt, (n - 1) as nat);
        let c = v[n - 1];
        if sock_active(c, prev) && last_sock(v, n - 1) && owner_of(owners, c.inode) is Some {
            before.push(conn_of(c, prev, owner_of(owners, c.inode)->0, dt))
        } else {
            before
        }
    }
}

fn find_sock<'a>(v: &'a Vec<SockSample>, inode: u32) -> (r: Option<&'a SockSample>)
    ensures
        match r {
            Some(c) => sock_of(v@, inode) == Some(*c),
            None => sock_of(v@, inode) is None,
        },
{
    let mut i: usize = v.len();
    proof {
        assert(v@.take(i as int) =~= v@);
    }
    while i > 0
        invariant
            i <= v@.len(),
            sock_of(v@, inode) == sock_of(v@.take(i as int), inode),
        decreases i,
    {
        i = i - 1;
        proof {
            assert(v@.take(i + 1).drop_last() =~= v@.take(i as int));
            assert(v@.take(i + 1).last() == v@[i as int]);
        }
        if v[i].inode == inode {
            return Some(&v[i]);
        }
    }
    proof {
        assert(v@.take(0).len() == 0);
    }
    None
}

fn find_owner<'a>(v: &'a Vec<Owner>, inode: u32) -> (r: Option<&'a Owner>)
    ensures
        match r {
            Some(c) => owner_of(v@, inode) == Some(*c),
            None => owner_of(v@, inode) is None,
        },
{
    let mut i: usize = v.len();
    proof {
        assert(v@.take(i as int) =~= v@);
    }
    while i > 0
        invariant
            i <= v@.len(),
            owner_of(v@, inode) == owner_of(v@.take(i as int), inode),
        decreases i,
    {
        i = i - 1;
        proof {
            assert(v@.take(i + 1).drop_last() =~= v@.take(i as int));
            assert(v@.take(i + 1).last() == v@[i as int]);
        }
        if v[i].inode == inode {
            return Some(&v[i]);
        }
    }
    proof {
        assert(v@.take(0).len() == 0);
    }
    None
}

fn is_last_sock(v: &Vec<SockSample>, i: usize) -> (r: bool)
    requires
        i < v@.len(),
    ensures
        r == last_sock(v@, i as int),
{
    let mut j: usize = v.len();
    while j > i + 1
        invariant
            i < j <= v@.len(),
            forall|k: int| j <= k < v@.len() ==> (#[trigger] v@[k]).inode != v@[i as int].inode,
        decreases j,
    {
        j = j - 1;
        if v[j].inode == v[i].inode {
            return false;
        }
    }
    true
}

/// A connection in `nettop`'s report, with its cumulative bytes.
pub struct ConnSample {
    /// The process and the connection's description.
    pub key: String,
    pub rx: u64,
    pub tx: u64,
    pub pid: i32,
    pub name: String,
    pub remote: String,
    pub state: String,
}

/// What a connection sample says.
#[verifier::ext_equal]
pub struct ConnText {
    pub key: Seq<char>,
    pub rx: u64,
    pub tx: u64,
    pub pid: i32,
    pub name: Seq<char>,
    pub remote: Seq<char>,
    pub state: Seq<char>,
}

impl View for ConnSample {
    type V = ConnText;

    open spec fn view(&self) -> ConnText {
        ConnText {
            key: self.key@,
            rx: self.rx,
            tx: self.tx,
            pid: self.pid,
            name: self.name@,
            remote: self.remote@,
            state: self.state@,
        }
    }
}

/// What a list of connection samples says.
pub open spec fn conn_texts(v: Seq<ConnSample>) -> Seq<ConnText> {
    Seq::new(v.len(), |i: int| v[i]@)
}

/// What has been read of `nettop`'s report: the process of the last process
/// row, and the connections so far.
pub struct Report {
    pub process: Option<(i32, Seq<char>)>,
    pub conns: Seq<ConnText>,
}

/// The process on a row `<name>.<pid>`; the name may contain dots.
pub open spec fn row_process(desc: Seq<char>) -> Option<(i32, Seq<char>)> {
    match last_place(desc, '.') {
        Some(dot) => match signed_value(desc.skip(dot + 1), i32::MIN as int, i32::MAX as int) {
            Some(pid) => Some((pid as i32, desc.take(dot))),
            None => None,
        },
        None => None,
    }
}

/// Whether a row describes a connection: `<proto> <local><->remote>`.
pub open spec fn is_conn_row(desc: Seq<char>) -> bool {
    contains(desc, "<->"@) && contains(desc, " "@)
}

/// The connection on a row of a process's connections, unless it is a listener
/// or an unbound socket or its counts cannot be read.
pub open spec fn row_conn(fields: Seq<Seq<char>>, process: Option<(i32, Seq<char>)>) -> Option<ConnText> {
    let desc = fields[0];
    let remote = desc.skip(find(desc, "<->"@)->0 + 3);
    let rx = unsigned_value(fields[2], u64::MAX as nat);
    let tx = unsigned_value(fields[3], u64::MAX as nat);
    if process is None || remote.len() == 0 || contains(remote, "*"@) || rx is None || tx is None {
        None
    } else {
        let (pid, name) = process->0;
        Some(
            ConnText {
                key: signed_numeral(pid as int) + " "@ + desc,
                rx: (rx->0) as u64,
                tx: (tx->0) as u64,
                pid,
                name,
                remote,
                state: fields[1],
            },
        )
    }
}

/// The report after one more row. Rows of fewer than four fields are skipped;
/// a row that is neither a connection nor a process ends the process.
pub open spec fn report_row(r: Report, line: Seq<char>) -> Report {
    let fields = pieces(line, ',');
    if line.len() == 0 || fields.len() < 4 {
        r
    } else if is_conn_row(fields[0]) {
        match row_conn(fields, r.process) {
            Some(c) => Report { process: r.process, conns: r.conns.push(c) },
            None => r,
        }
    } else {
        Report { process: row_process(fields[0]), conns: r.conns }
    }
}

/// The report that some rows make.
pub open spec fn report(rows: Seq<Seq<char>>) -> Report
    decreases rows.len(),
{
    if rows.len() == 0 {
        Report { process: None, conns: seq![] }
    } else {
        report_row(report(rows.drop_last()), rows.last())
    }
}

fn process_on_row(desc: &str) -> (r: Option<(i32, String)>)
    ensures
        match r {
            Some(p) => row_process(desc@) == Some((p.0, p.1@)),
            None => row_process(desc@) is None,
        },
{
    let c: Vec<char> = chars_of(desc);
    match find_last(&c, '.') {
        Some(dot) => {
            let n: usize = c.len();
            let after = string_of(&c, dot + 1, n);
            proof {
                assert(after@ =~= desc@.skip(dot + 1));
            }
            match parse_i32(after.as_str()) {
                Some(pid) => {
                    let name = string_of(&c, 0, dot);
                    proof {
                        assert(name@ =~= desc@.take(dot as int));
                    }
                    Some((pid, name))
                },
                None => None,
            }
        },
        None => None,
    }
}

/// Reads a connection row.
fn conn_on_row(fields: &Vec<String>, pid: i32, name: &str) -> (r: Option<ConnSample>)
    requires
        fields@.len() >= 4,
        is_conn_row(fields@[0]@),
    ensures
        match r {
            Some(c) => row_conn(texts(fields@), Some((pid, name@))) == Some(c@),
            None => row_conn(texts(fields@), Some((pid, name@))) is None,
        },
{
    let desc = fields[0].as_str();
    let c: Vec<char> = chars_of(desc);
    let q: Vec<char> = chars_of("<->");
    proof {
        reveal_strlit("<->");
        assert(texts(fields@)[0] == fields@[0]@);
        assert(texts(fields@)[1] == fields@[1]@);
        assert(texts(fields@)[2] == fields@[2]@);
        assert(texts(fields@)[3] == fields@[3]@);
    }
    let sep: usize = match find_in(&c, &q) {
        Some(i) => i,
        None => return None,
    };
    let n: usize = c.len();
    let remote = string_of(&c, sep + 3, n);
    proof {
        assert(remote@ =~= desc@.skip(sep + 3));
    }
    if remote.as_str().is_empty() || holds(remote.as_str(), "*") {
        return None;
    }
    let rx: u64 = match parse_u64(fields[2].as_str()) {
        Some(v) => v,
        None => return None,
    };
    let tx: u64 = match parse_u64(fields[3].as_str()) {
        Some(v) => v,
        None => return None,
    };
    let key = joined3(signed_numeral_of(pid as i64).as_str(), " ", desc);
    Some(ConnSample { key, rx, tx, pid, name: name.to_owned(), remote, state: fields[1].clone() })
}

/// Reads `nettop`'s CSV report: a process row `<name>.<pid>,,<in>,<out>,` is
/// followed by that process's connection rows
/// `<proto> <local><->remote>,<state>,<in>,<out>,`, which inherit its number
/// and name.
pub fn parse_nettop_conns(data: &str) -> (r: Vec<ConnSample>)
    ensures
        conn_texts(r@) == report(lines(data@)).conns,
{
    let rows: Vec<String> = split_lines(data);
    let ghost ls = texts(rows@);
    let mut out: Vec<ConnSample> = Vec::new();
    let mut have = false;
    let mut cur_pid: i32 = 0;
    let mut cur_name = String::new();
    let mut i: usize = 0;
    proof {
        assert(ls.take(0).len() == 0);
        assert(conn_texts(out@) =~= report(ls.take(0)).conns);
    }
    while i < rows.len()
        invariant
            i <= rows@.len(),
            ls == texts(rows@),
            conn_texts(out@) == report(ls.take(i as int)).conns,
            report(ls.take(i as int)).process == (if have {
                Some((cur_pid, cur_name@))
            } else {
                None
            }),
        decreases rows@.len() - i,
    {
        proof {
            assert(ls.take(i + 1).drop_last() =~= ls.take(i as int));
            assert(ls.take(i + 1).last() == rows@[i as int]@);
        }
        let line = rows[i].as_str();
        if !line.is_empty() {
            let fields: Vec<String> = split_at_each(line, ',');
            proof {
                assert(texts(fields@).len() == fields@.len());
                assert(texts(fields@)[0] == fields@[0]@);
            }
            if fields.len() >= 4 {
                let desc = fields[0].as_str();
                if holds(desc, "<->") && holds(desc, " ") {
                    if have {
                        if let Some(c) = conn_on_row(&fields, cur_pid, cur_name.as_str()) {
                            let ghost before = conn_texts(out@);
                            let ghost one = c@;
                            out.push(c);
                            proof {
                                assert(conn_texts(out@) =~= before.push(one));
                            }
                        }
                    }
                } else {
                    match process_on_row(desc) {
                        Some((pid, name)) => {
                            have = true;
                            cur_pid = pid;
                            cur_name = name;
                        },
                        None => {
                            have = false;
                        },
                    }
                }
            }
        }
        i = i + 1;
    }
    proof {
        assert(ls.take(rows@.len() as int) =~= ls);
    }
    out
}

/// The last sample of a connection.
pub open spec fn sample_of(v: Seq<ConnSample>, key: Seq<char>) -> Option<ConnSample>
    decreases v.len(),
{
    if v.len() == 0 {
        None
    } else if v.last().key@ == key {
        Some(v.last())
    } else {
        sample_of(v.drop_last(), key)
    }
}

/// Whether the `i`-th sample is the last of its connection.
pub open spec fn last_sample(v: Seq<ConnSample>, i: int) -> bool {
    forall|j: int| i < j < v.len() ==> (#[trigger] v[j]).key@ != v[i].key@
}

/// What a connection carried since its previous sample, if anything.
pub open spec fn conn_since(c: ConnSample, prev: Seq<ConnSample>, dt: Num) -> Option<ProcConn> {
    match sample_of(prev, c.key@) {
        None => None,
        Some(p) => if delta(c.rx, p.rx) == 0 && delta(c.tx, p.tx) == 0 {
            None
        } else {
            Some(
                ProcConn {
                    pid: c.pid,
                    name: c.name,
                    remote: c.remote,
                    state: c.state,
                    rx_per_sec: per_second(delta(c.rx, p.rx), dt),
                    tx_per_sec: per_second(delta(c.tx, p.tx), dt),
                },
            )
        },
    }
}

/// What the first `n` of some connections carried.
pub open spec fn reported_conns(v: Seq<ConnSample>, prev: Seq<ConnSample>, dt: Num, n: nat) -> Seq<ProcConn>
    decreases n,
{
    if n == 0 {
        seq![]
    } else {
        let before = reported_conns(v, prev, dt, (n - 1) as nat);
        match conn_since(v[n - 1], prev, dt) {
            Some(x) => if last_sample(v, n - 1) {
                before.push(x)
            } else {
                before
            },
            None => before,
        }
    }
}

fn find_conn<'a>(v: &'a Vec<ConnSample>, key: &str) -> (r: Option<&'a ConnSample>)
    ensures
        match r {
            Some(c) => sample_of(v@, key@) == Some(*c),
            None => sample_of(v@, key@) is None,
        },
{
    let mut i: usize = v.len();
    proof {
        assert(v@.take(i as int) =~= v@);
    }
    while i > 0
        invariant
            i <= v@.len(),
            sample_of(v@, key@) == sample_of(v@.take(i as int), key@),
        decreases i,
    {
        i = i - 1;
        proof {
            assert(v@.take(i + 1).drop_last() =~= v@.take(i as int));
            assert(v@.take(i + 1).last() == v@[i as int]);
        }
        if same(v[i].key.as_str(), key) {
            return Some(&v[i]);
        }
    }
    proof {
        assert(v@.take(0).len() == 0);
    }
    None
}

fn is_last_conn(v: &Vec<ConnSample>, i: usize) -> (r: bool)
    requires
        i < v@.len(),
    ensures
        r == last_sample(v@, i as int),
{
    let mut j: usize = v.len();
    while j > i + 1
        invariant
            i < j <= v@.len(),
            forall|k: int| j <= k < v@.len() ==> (#[trigger] v@[k]).key@ != v@[i as int].key@,
        decreases j,
    {
        j = j - 1;
        if same(v[j].key.as_str(), v[i].key.as_str()) {
            return false;
        }
    }
    true
}

/// Network throughput by connection.
pub struct ProcNet {
    pub conns: Vec<ProcConn>,
    pub need_root: bool,
    pub prev: Vec<SockSample>,
    pub prev_conns: Vec<ConnSample>,
    pub prev_time: u64,
    pub primed: bool,
}

impl ProcNet {
    /// Nothing sampled yet.
    pub fn new(now: u64) -> (r: ProcNet)
        ensures
            r.conns@.len() == 0,
            !r.need_root,
            r.prev@.len() == 0,
            r.prev_conns@.len() == 0,
            r.prev_time == now,
            !r.primed,
    {
        ProcNet {
            conns: Vec::new(),
            need_root: false,
            prev: Vec::new(),
            prev_conns: Vec::new(),
            prev_time: now,
            primed: false,
        }
    }

    /// Drops the baseline so the next update starts a fresh measurement window.
    pub fn reset(&mut self)
        ensures
            *final(self) == (ProcNet { primed: false, ..*old(self) }),
    {
        self.primed = false;
    }

    /// Whether a sample at `now` ends a measurement window.
    pub open spec fn measures(&self, now: u64) -> bool {
        self.primed && Num::spec_zero().less(seconds(delta(now, self.prev_time)))
    }

    /// Without root nothing can be sampled: the list is emptied and the
    /// baseline kept.
    pub fn update_denied(&mut self)
        ensures
            final(self).need_root,
            final(self).conns@.len() == 0,
            final(self).prev == old(self).prev,
            final(self).prev_conns == old(self).prev_conns,
            final(self).prev_time == old(self).prev_time,
            final(self).primed == old(self).primed,
    {
        self.need_root = true;
        self.conns = Vec::new();
    }

    /// Whether the owners of sockets will be asked for: some socket has carried
    /// anything in a measurement window that `now` ends.
    pub fn needs_owners(&self, socks: &Vec<SockSample>, now: u64) -> (r: bool)
        ensures
            r == (self.measures(now) && exists|i: int|
                0 <= i < socks@.len() && sock_active(#[trigger] socks@[i], self.prev@)),
    {
        if !self.primed || !Num::zero().lt(elapsed(now, self.prev_time)) {
            return false;
        }
        let mut i: usize = 0;
        while i < socks.len()
            invariant
                i <= socks@.len(),
                self.measures(now),
                forall|k: int| 0 <= k < i ==> !sock_active(#[trigger] socks@[k], self.prev@),
            decreases socks@.len() - i,
        {
            if self.is_active(&socks[i]) {
                return true;
            }
            i = i + 1;
        }
        false
    }

    fn is_active(&self, c: &SockSample) -> (r: bool)
        ensures
            r == sock_active(*c, self.prev@),
    {
        match find_sock(&self.prev, c.inode) {
            Some(p) => (counter_delta(c.tx, p.tx) > 0 || counter_delta(c.rx, p.rx) > 0) && !c.remote.as_str().is_empty(),
            None => false,
        }
    }

    /// This is what stood before with a sample of every socket taken in.
    pub open spec fn took_in(&self, before: ProcNet, socks: Vec<SockSample>, owners: Seq<Owner>, now: u64) -> bool {
        let dt = seconds(delta(now, before.prev_time));
        &&& self.conns@ == if before.measures(now) {
            conn_list(socks@, before.prev@, owners, dt, socks@.len())
        } else {
            before.conns@
        }
        &&& !self.need_root
        &&& self.prev == socks
        &&& self.prev_conns == before.prev_conns
        &&& self.prev_time == now
        &&& self.primed
    }

    /// Takes in a sample of every socket. A connection shows up once its
    /// socket has a previous sample, has carried anything since and has a
    /// known owner.
    pub fn update(&mut self, socks: Vec<SockSample>, owners: &Vec<Owner>, now: u64)
        ensures
            final(self).took_in(*old(self), socks, owners@, now),
    {
        self.need_root = false;
        let dt = elapsed(now, self.prev_time);
        if self.primed && Num::zero().lt(dt) {
            let mut conns: Vec<ProcConn> = Vec::new();
            let mut i: usize = 0;
            proof {
                assert(conns@ =~= conn_list(socks@, self.prev@, owners@, dt, 0));
            }
            while i < socks.len()
                invariant
                    i <= socks@.len(),
                    conns@ == conn_list(socks@, self.prev@, owners@, dt, i as nat),
                decreases socks@.len() - i,
            {
                let c = &socks[i];
                if self.is_active(c) && is_last_sock(&socks, i) {
                    if let Some(o) = find_owner(owners, c.inode) {
                        if let Some(p) = find_sock(&self.prev, c.inode) {
                            conns.push(
                                ProcConn {
                                    pid: o.pid,
                                    name: o.name.clone(),
                                    remote: c.remote.clone(),
                                    state: c.state.clone(),
                                    rx_per_sec: rate(counter_delta(c.rx, p.rx), dt),
                                    tx_per_sec: rate(counter_delta(c.tx, p.tx), dt),
                                },
                            );
                        }
                    }
                }
                i = i + 1;
            }
            self.conns = conns;
        }
        self.prev = socks;
        self.prev_time = now;
        self.primed = true;
    }

    /// This is what stood before with `nettop`'s report taken in.
    pub open spec fn took_report(&self, before: ProcNet, cur: Vec<ConnSample>, now: u64) -> bool {
        let dt = seconds(delta(now, before.prev_time));
        &&& self.conns@ == if before.measures(now) {
            reported_conns(cur@, before.prev_conns@, dt, cur@.len())
        } else {
            before.conns@
        }
        &&& self.need_root == before.need_root
        &&& self.prev == before.prev
        &&& self.prev_conns == cur
        &&& self.prev_time == now
        &&& self.primed
    }

    /// Takes in the connections of `nettop`'s report, which needs no root.
    pub fn update_report(&mut self, cur: Vec<ConnSample>, now: u64)
        ensures
            final(self).took_report(*old(self), cur, now),
    {
        let dt = elapsed(now, self.prev_time);
        if self.primed && Num::zero().lt(dt) {
            let mut conns: Vec<ProcConn> = Vec::new();
            let mut i: usize = 0;
            proof {
                assert(conns@ =~= reported_conns(cur@, self.prev_conns@, dt, 0));
            }
            while i < cur.len()
                invariant
                    i <= cur@.len(),
                    conns@ == reported_conns(cur@, self.prev_conns@, dt, i as nat),
                decreases cur@.len() - i,
            {
                let c = &cur[i];
                if let Some(p) = find_conn(&self.prev_conns, c.key.as_str()) {
                    let drx: u64 = counter_delta(c.rx, p.rx);
                    let dtx: u64 = counter_delta(c.tx, p.tx);
                    if (drx != 0 || dtx != 0) && is_last_conn(&cur, i) {
                        conns.push(
                            ProcConn {
                                pid: c.pid,
                                name: c.name.clone(),
                                remote: c.remote.clone(),
                                state: c.state.clone(),
                                rx_per_sec: rate(drx, dt),
                                tx_per_sec: rate(dtx, dt),
                            },
                        );
                    }
                }
                i = i + 1;
            }
            self.conns = conns;
        }
        self.prev_conns = cur;
        self.prev_time = now;
        self.primed = true;
    }
}

/// Whether a place holds the last sample of a socket.
pub open spec fn sock_at(v: Seq<SockSample>, inode: u32, j: int) -> bool {
    0 <= j < v.len() && v[j].inode == inode && forall|k: int| j < k < v.len() ==> (#[trigger] v[k]).inode != inode
}

/// Whether a place holds the last owner of a socket.
pub open spec fn owner_at(v: Seq<Owner>, inode: u32, m: int) -> bool {
    0 <= m < v.len() && v[m].inode == inode && forall|k: int| m < k < v.len() ==> (#[trigger] v[k]).inode != inode
}

/// Whether a connected socket received or sent anything between two samples
/// and is somebody's: the sample at `i` is its last, the one before it stands
/// at `j` and its owner at `m`.
pub open spec fn carrying(
    socks: Seq<SockSample>,
    prev: Seq<SockSample>,
    owners: Seq<Owner>,
    i: int,
    j: int,
    m: int,
) -> bool {
    &&& 0 <= i < socks.len()
    &&& sock_at(socks, socks[i].inode, i)
    &&& sock_at(prev, socks[i].inode, j)
    &&& owner_at(owners, socks[i].inode, m)
    &&& socks[i].remote@.len() > 0
    &&& socks[i].rx > prev[j].rx || socks[i].tx > prev[j].tx
}

/// Whether a connection is that of the socket at `i`: under its owner, with
/// what it received and sent in `ns` nanoseconds.
pub open spec fn listed_as(
    socks: Seq<SockSample>,
    prev: Seq<SockSample>,
    owners: Seq<Owner>,
    i: int,
    ns: nat,
    c: ProcConn,
) -> bool {
    exists|j: int, m: int| #[trigger]
        carrying(socks, prev, owners, i, j, m) && c.pid == owners[m].pid && c.name == owners[m].name && c.remote
            == socks[i].remote && c.state == socks[i].state && paced(c.rx_per_sec, socks[i].rx, prev[j].rx, ns) && paced(
            c.tx_per_sec,
            socks[i].tx,
            prev[j].tx,
            ns,
        )
}

proof fn lemma_sock_found(v: Seq<SockSample>, inode: u32, j: int)
    requires
        sock_at(v, inode, j),
    ensures
        sock_of(v, inode) == Some(v[j]),
    decreases v.len(),
{
    if j < v.len() - 1 {
        assert(v[v.len() - 1].inode != inode);
        assert forall|k: int| j < k < v.drop_last().len() implies (#[trigger] v.drop_last()[k]).inode != inode by {
            assert(v.drop_last()[k] == v[k]);
        }
        lemma_sock_found(v.drop_last(), inode, j);
    }
}

proof fn lemma_sock_place(v: Seq<SockSample>, inode: u32) -> (j: int)
    requires
        sock_of(v, inode) is Some,
    ensures
        sock_at(v, inode, j),
        v[j] == sock_of(v, inode)->0,
    decreases v.len(),
{
    if v.last().inode == inode {
        v.len() - 1
    } else {
        let j = lemma_sock_place(v.drop_last(), inode);
        assert forall|k: int| j < k < v.len() implies (#[trigger] v[k]).inode != inode by {
            if k < v.len() - 1 {
                assert(v.drop_last()[k] == v[k]);
            }
        }
        j
    }
}

proof fn lemma_owner_found(v: Seq<Owner>, inode: u32, m: int)
    requires
        owner_at(v, inode, m),
    ensures
        owner_of(v, inode) == Some(v[m]),
    decreases v.len(),
{
    if m < v.len() - 1 {
        assert(v[v.len() - 1].inode != inode);
        assert forall|k: int| m < k < v.drop_last().len() implies (#[trigger] v.drop_last()[k]).inode != inode by {
            assert(v.drop_last()[k] == v[k]);
        }
        lemma_owner_found(v.drop_last(), inode, m);
    }
}

proof fn lemma_owner_place(v: Seq<Owner>, inode: u32) -> (m: int)
    requires
        owner_of(v, inode) is Some,
    ensures
        owner_at(v, inode, m),
        v[m] == owner_of(v, inode)->0,
    decreases v.len(),
{
    if v.last().inode == inode {
        v.len() - 1
    } else {
        let m = lemma_owner_place(v.drop_last(), inode);
        assert forall|k: int| m < k < v.len() implies (#[trigger] v[k]).inode != inode by {
            if k < v.len() - 1 {
                assert(v.drop_last()[k] == v[k]);
            }
        }
        m
    }
}

/// Where each listed connection comes from.
proof fn lemma_conn_sources(v: Seq<SockSample>, prev: Seq<SockSample>, owners: Seq<Owner>, dt: Num, n: nat) -> (from: Seq<
    int,
>)
    requires
        n <= v.len(),
    ensures
        from.len() == conn_list(v, prev, owners, dt, n).len(),
        forall|k: int|
            0 <= k < from.len() ==> 0 <= #[trigger] from[k] < n && sock_active(v[from[k]], prev) && last_sock(v, from[k])
                && owner_of(owners, v[from[k]].inode) is Some && conn_list(v, prev, owners, dt, n)[k] == conn_of(
                v[from[k]],
                prev,
                owner_of(owners, v[from[k]].inode)->0,
                dt,
            ),
        forall|a: int, b: int| 0 <= a < b < from.len() ==> #[trigger] from[a] < #[trigger] from[b],
        forall|i: int|
            0 <= i < n && sock_active(#[trigger] v[i], prev) && last_sock(v, i) && owner_of(owners, v[i].inode) is Some
                ==> from.contains(i),
    decreases n,
{
    if n == 0 {
        seq![]
    } else {
        let m = (n - 1) as nat;
        let before = lemma_conn_sources(v, prev, owners, dt, m);
        if sock_active(v[n - 1], prev) && last_sock(v, n - 1) && owner_of(owners, v[n - 1].inode) is Some {
            let from = before.push(n - 1);
            assert forall|i: int|
                0 <= i < n && sock_active(#[trigger] v[i], prev) && last_sock(v, i) && owner_of(
                    owners,
                    v[i].inode,
                ) is Some implies from.contains(i) by {
                if i < n - 1 {
                    assert(before.contains(i));
                    let k = choose|k: int| 0 <= k < before.len() && before[k] == i;
                    assert(from[k] == i);
                } else {
                    assert(from[before.len() as int] == i);
                }
            }
            from
        } else {
            before
        }
    }
}

/// The list of connections after a sample that ends a measurement window holds
/// exactly the sockets that received or sent anything since their previous
/// sample, have a remote end and a known owner, in their order: `from` tells
/// which. Each is listed under its owner, with what it received and sent over
/// the time that passed.
pub proof fn lemma_conns_are_carrying(before: ProcNet, after: ProcNet, socks: Vec<SockSample>, owners: Seq<Owner>, now: u64) -> (
from: Seq<int>)
    requires
        after.took_in(before, socks, owners, now),
        before.primed,
        now > before.prev_time,
    ensures
        from.len() == after.conns@.len(),
        forall|a: int, b: int| 0 <= a < b < from.len() ==> #[trigger] from[a] < #[trigger] from[b],
        forall|k: int|
            0 <= k < from.len() ==> #[trigger] listed_as(
                socks@,
                before.prev@,
                owners,
                from[k],
                (now - before.prev_time) as nat,
                after.conns@[k],
            ),
        forall|i: int, j: int, m: int| #[trigger]
            carrying(socks@, before.prev@, owners, i, j, m) ==> from.contains(i),
{
    let ns = (now - before.prev_time) as nat;
    let dt = seconds(ns);
    lemma_seconds_value(ns);
    let v = socks@;
    let prev = before.prev@;
    let from = lemma_conn_sources(v, prev, owners, dt, v.len());
    assert forall|k: int| 0 <= k < from.len() implies #[trigger] listed_as(
        v,
        prev,
        owners,
        from[k],
        ns,
        after.conns@[k],
    ) by {
        let s = v[from[k]];
        let j = lemma_sock_place(prev, s.inode);
        let m = lemma_owner_place(owners, s.inode);
        lemma_paced(s.rx, prev[j].rx, ns);
        lemma_paced(s.tx, prev[j].tx, ns);
        assert(carrying(v, prev, owners, from[k], j, m));
    }
    assert forall|i: int, j: int, m: int| #[trigger] carrying(v, prev, owners, i, j, m) implies from.contains(i) by {
        lemma_sock_found(prev, v[i].inode, j);
        lemma_owner_found(owners, v[i].inode, m);
        assert(sock_active(v[i], prev));
    }
    from
}

/// A sample that ends no measurement window, because none was begun or no time
/// has passed, leaves the list as it was; every sample begins one.
pub proof fn lemma_window_needed(before: ProcNet, after: ProcNet, socks: Vec<SockSample>, owners: Seq<Owner>, now: u64)
    requires
        after.took_in(before, socks, owners, now),
        !before.primed || now <= before.prev_time,
    ensures
        after.conns@ == before.conns@,
        after.primed,
        after.prev == socks,
        after.prev_time == now,
{
    lemma_seconds_value(delta(now, before.prev_time));
}

/// Whether a place holds the last sample of a connection.
pub open spec fn conn_at(v: Seq<ConnSample>, key: Seq<char>, j: int) -> bool {
    0 <= j < v.len() && v[j].key@ == key && forall|k: int| j < k < v.len() ==> (#[trigger] v[k]).key@ != key
}

/// Whether a reported connection received or sent anything between two
/// reports: its last sample stands at `i`, the one before it at `j`.
pub open spec fn reported_carrying(cur: Seq<ConnSample>, prev: Seq<ConnSample>, i: int, j: int) -> bool {
    &&& 0 <= i < cur.len()
    &&& conn_at(cur, cur[i].key@, i)
    &&& conn_at(prev, cur[i].key@, j)
    &&& cur[i].rx > prev[j].rx || cur[i].tx > prev[j].tx
}

/// Whether a connection is the reported one at `i`, with what it received and
/// sent in `ns` nanoseconds.
pub open spec fn reported_as(cur: Seq<ConnSample>, prev: Seq<ConnSample>, i: int, ns: nat, c: ProcConn) -> bool {
    exists|j: int| #[trigger]
        reported_carrying(cur, prev, i, j) && c.pid == cur[i].pid && c.name == cur[i].name && c.remote == cur[i].remote
            && c.state == cur[i].state && paced(c.rx_per_sec, cur[i].rx, prev[j].rx, ns) && paced(
            c.tx_per_sec,
            cur[i].tx,
            prev[j].tx,
            ns,
        )
}

proof fn lemma_sample_found(v: Seq<ConnSample>, key: Seq<char>, j: int)
    requires
        conn_at(v, key, j),
    ensures
        sample_of(v, key) == Some(v[j]),
    decreases v.len(),
{
    if j < v.len() - 1 {
        assert(v[v.len() - 1].key@ != key);
        assert forall|k: int| j < k < v.drop_last().len() implies (#[trigger] v.drop_last()[k]).key@ != key by {
            assert(v.drop_last()[k] == v[k]);
        }
        lemma_sample_found(v.drop_last(), key, j);
    }
}

proof fn lemma_sample_place(v: Seq<ConnSample>, key: Seq<char>) -> (j: int)
    requires
        sample_of(v, key) is Some,
    ensures
        conn_at(v, key, j),
        v[j] == sample_of(v, key)->0,
    decreases v.len(),
{
    if v.last().key@ == key {
        v.len() - 1
    } else {
        let j = lemma_sample_place(v.drop_last(), key);
        assert forall|k: int| j < k < v.len() implies (#[trigger] v[k]).key@ != key by {
            if k < v.len() - 1 {
                assert(v.drop_last()[k] == v[k]);
            }
        }
        j
    }
}

/// Where each listed connection of a report comes from.
proof fn lemma_report_sources(v: Seq<ConnSample>, prev: Seq<ConnSample>, dt: Num, n: nat) -> (from: Seq<int>)
    requires
        n <= v.len(),
    ensures
        from.len() == reported_conns(v, prev, dt, n).len(),
        forall|k: int|
            0 <= k < from.len() ==> 0 <= #[trigger] from[k] < n && last_sample(v, from[k]) && conn_since(
                v[from[k]],
                prev,
                dt,
            ) == Some(reported_conns(v, prev, dt, n)[k]),
        forall|a: int, b: int| 0 <= a < b < from.len() ==> #[trigger] from[a] < #[trigger] from[b],
        forall|i: int|
            0 <= i < n && conn_since(#[trigger] v[i], prev, dt) is Some && last_sample(v, i) ==> from.contains(i),
    decreases n,
{
    if n == 0 {
        seq![]
    } else {
        let m = (n - 1) as nat;
        let before = lemma_report_sources(v, prev, dt, m);
        if conn_since(v[n - 1], prev, dt) is Some && last_sample(v, n - 1) {
            let from = before.push(n - 1);
            assert forall|i: int|
                0 <= i < n && conn_since(#[trigger] v[i], prev, dt) is Some && last_sample(
                    v,
                    i,
                ) implies from.contains(i) by {
                if i < n - 1 {
                    assert(before.contains(i));
                    let k = choose|k: int| 0 <= k < before.len() && before[k] == i;
                    assert(from[k] == i);
                } else {
                    assert(from[before.len() as int] == i);
                }
            }
            from
        } else {
            before
        }
    }
}

/// The list of connections after a report that ends a measurement window holds
/// exactly the connections that received or sent anything since the previous
/// report, in their order: `from` tells which. Each has what it received and
/// sent over the time that passed.
pub proof fn lemma_reported_are_carrying(before: ProcNet, after: ProcNet, cur: Vec<ConnSample>, now: u64) -> (from: Seq<int>)
    requires
        after.took_report(before, cur, now),
        before.primed,
        now > before.prev_time,
    ensures
        from.len() == after.conns@.len(),
        forall|a: int, b: int| 0 <= a < b < from.len() ==> #[trigger] from[a] < #[trigger] from[b],
        forall|k: int|
            0 <= k < from.len() ==> #[trigger] reported_as(
                cur@,
                before.prev_conns@,
                from[k],
                (now - before.prev_time) as nat,
                after.conns@[k],
            ),
        forall|i: int, j: int| #[trigger] reported_carrying(cur@, before.prev_conns@, i, j) ==> from.contains(i),
{
    let ns = (now - before.prev_time) as nat;
    let dt = seconds(ns);
    lemma_seconds_value(ns);
    let v = cur@;
    let prev = before.prev_conns@;
    let from = lemma_report_sources(v, prev, dt, v.len());
    assert forall|k: int| 0 <= k < from.len() implies #[trigger] reported_as(
        v,
        prev,
        from[k],
        ns,
        after.conns@[k],
    ) by {
        let s = v[from[k]];
        let j = lemma_sample_place(prev, s.key@);
        lemma_paced(s.rx, prev[j].rx, ns);
        lemma_paced(s.tx, prev[j].tx, ns);
        assert(reported_carrying(v, prev, from[k], j));
    }
    assert forall|i: int, j: int| #[trigger] reported_carrying(v, prev, i, j) implies from.contains(i) by {
        lemma_sample_found(prev, v[i].key@, j);
        assert(conn_since(v[i], prev, dt) is Some);
    }
    from
}

/// The states have the kernel's names, in its order; what lies beyond has none.
pub proof fn lemma_states_in_turn(s: u8)
    ensures
        1 <= s <= 11 ==> state_name(s) == seq![
            "ESTABLISHED"@,
            "SYN_SENT"@,
            "SYN_RECV"@,
            "FIN_WAIT1"@,
            "FIN_WAIT2"@,
            "TIME_WAIT"@,
            "CLOSE"@,
            "CLOSE_WAIT"@,
            "LAST_ACK"@,
            "LISTEN"@,
            "CLOSING"@,
        ][s - 1],
        s == 0 || s > 11 ==> state_name(s).len() == 0,
{
    reveal_strlit("");
}

} // verus!
