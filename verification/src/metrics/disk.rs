//! Root filesystem usage, all mounted physical filesystems, and aggregate
//! block-device throughput.

use super::memory::less;
use super::{
    delta, elapsed, held, lemma_paced, lemma_percent_value, lemma_seconds_value, paced, per_second, percent, percent_of, plus_held,
    rate, seconds, times_held,
};
use crate::chars::{chars_of, same, texts};
use crate::num::read::{is_digit, is_digit_char, only_digits};
use crate::num::value::within;
use crate::num::Num;
use crate::scan::{
    after_prefix, begins, find, halves, lemma_found, lines, occurs, parse_u64, split_lines, split_once, split_words, starts, trim,
    trimmed, unsigned_value, words,
};
use crate::sort::{arranged, comes_before, slot, text_before};
use vstd::prelude::*;

verus! {

/// Block counts of a filesystem, as `statvfs` reports them.
#[derive(Clone, Copy, Debug, PartialEq, Eq, Structural)]
pub struct FsBlocks {
    pub fragment_size: u64,
    pub block_size: u64,
    pub blocks: u64,
    pub free: u64,
    pub available: u64,
}

/// A filesystem's usage in bytes.
#[derive(Clone, Copy, Debug, PartialEq, Eq, Structural)]
pub struct Usage {
    pub total: u64,
    pub used: u64,
    pub used_percent: Num,
}

impl FsBlocks {
    /// The size of a block in bytes.
    pub open spec fn unit(self) -> nat {
        if self.fragment_size > 0 {
            self.fragment_size as nat
        } else {
            self.block_size as nat
        }
    }

    /// `df`-style usage: the used percentage is taken against the space
    /// available to unprivileged users.
    pub open spec fn usage(self) -> Usage {
        let used = held(less(self.blocks as nat, self.free as nat) * self.unit());
        let avail = held(self.available as nat * self.unit());
        Usage {
            total: held(self.blocks as nat * self.unit()) as u64,
            used: used as u64,
            used_percent: if used + avail > 0 {
                percent_of(used, held(used + avail))
            } else {
                Num::spec_zero()
            },
        }
    }
}

/// `df`-style usage of a filesystem.
pub fn fs_usage(b: FsBlocks) -> (r: Usage)
    ensures
        r == b.usage(),
{
    let unit: u64 = if b.fragment_size > 0 {
        b.fragment_size
    } else {
        b.block_size
    };
    let total: u64 = times_held(b.blocks, unit);
    let used: u64 = times_held(b.blocks.saturating_sub(b.free), unit);
    let avail: u64 = times_held(b.available, unit);
    let used_percent = if used > 0 || avail > 0 {
        percent(used, plus_held(used, avail))
    } else {
        Num::zero()
    };
    Usage { total, used, used_percent }
}

/// Root filesystem usage plus aggregate block-device throughput.
#[derive(Clone, Copy, Debug, PartialEq, Eq, Structural)]
pub struct Disk {
    pub total: u64,
    pub used: u64,
    pub used_percent: Num,
    pub read_per_sec: Num,
    pub write_per_sec: Num,
    pub prev_read: u64,
    pub prev_write: u64,
    pub prev_time: u64,
}

/// A rate after a new reading of its counter: unchanged where no time has
/// passed or the counter went back.
pub open spec fn next_rate(old: Num, cur: u64, prev: u64, dt: Num) -> Num {
    if Num::spec_zero().less(dt) && cur >= prev {
        per_second(delta(cur, prev), dt)
    } else {
        old
    }
}

/// A rate after a new reading of its counter.
pub fn fresh_rate(old_rate: Num, cur: u64, prev: u64, dt: Num) -> (r: Num)
    ensures
        r == next_rate(old_rate, cur, prev, dt),
{
    if Num::zero().lt(dt) && cur >= prev {
        rate(cur - prev, dt)
    } else {
        old_rate
    }
}

impl Disk {
    /// A baseline at a point in time: the root filesystem's usage and the
    /// bytes read and written so far.
    pub fn new(usage: Usage, read: u64, write: u64, now: u64) -> (r: Disk)
        ensures
            r == (Disk {
                total: usage.total,
                used: usage.used,
                used_percent: usage.used_percent,
                read_per_sec: Num::spec_zero(),
                write_per_sec: Num::spec_zero(),
                prev_read: read,
                prev_write: write,
                prev_time: now,
            }),
    {
        Disk {
            total: usage.total,
            used: usage.used,
            used_percent: usage.used_percent,
            read_per_sec: Num::zero(),
            write_per_sec: Num::zero(),
            prev_read: read,
            prev_write: write,
            prev_time: now,
        }
    }

    /// The readings of a later point in time; a usage that could not be had
    /// stays as it was.
    pub open spec fn after(self, usage: Option<Usage>, read: u64, write: u64, now: u64) -> Disk {
        let dt = seconds(delta(now, self.prev_time));
        Disk {
            total: match usage {
                Some(u) => u.total,
                None => self.total,
            },
            used: match usage {
                Some(u) => u.used,
                None => self.used,
            },
            used_percent: match usage {
                Some(u) => u.used_percent,
                None => self.used_percent,
            },
            read_per_sec: next_rate(self.read_per_sec, read, self.prev_read, dt),
            write_per_sec: next_rate(self.write_per_sec, write, self.prev_write, dt),
            prev_read: read,
            prev_write: write,
            prev_time: now,
        }
    }

    pub fn update(&mut self, usage: Option<Usage>, read: u64, write: u64, now: u64)
        ensures
            *final(self) == old(self).after(usage, read, write, now),
    {
        if let Some(u) = usage {
            self.total = u.total;
            self.used = u.used;
            self.used_percent = u.used_percent;
        }
        let dt = elapsed(now, self.prev_time);
        self.read_per_sec = fresh_rate(self.read_per_sec, read, self.prev_read, dt);
        self.write_per_sec = fresh_rate(self.write_per_sec, write, self.prev_write, dt);
        self.prev_read = read;
        self.prev_write = write;
        self.prev_time = now;
    }
}

/// One or more digits.
pub open spec fn some_digits(s: Seq<char>) -> bool {
    s.len() > 0 && only_digits(s)
}

/// One or more lower-case ASCII letters.
pub open spec fn some_letters(s: Seq<char>) -> bool {
    s.len() > 0 && forall|i: int| 0 <= i < s.len() ==> 'a' <= #[trigger] s[i] <= 'z'
}

/// Names of unpartitioned devices (sdX, vdX, xvdX, nvmeNnN, mmcblkN, diskN), so
/// partitions are not counted on top of their parent.
pub open spec fn whole_device(name: Seq<char>) -> bool {
    if begins(name, "nvme"@) {
        match halves(name.skip(4), "n"@) {
            Some(h) => some_digits(h.0) && some_digits(h.1),
            None => false,
        }
    } else if begins(name, "xvd"@) {
        some_letters(name.skip(3))
    } else if begins(name, "sd"@) {
        some_letters(name.skip(2))
    } else if begins(name, "vd"@) {
        some_letters(name.skip(2))
    } else if begins(name, "mmcblk"@) {
        some_digits(name.skip(6))
    } else if begins(name, "disk"@) {
        some_digits(name.skip(4))
    } else {
        false
    }
}

fn is_digits(s: &str) -> (r: bool)
    ensures
        r == some_digits(s@),
{
    let c: Vec<char> = chars_of(s);
    let mut i: usize = 0;
    while i < c.len()
        invariant
            i <= c@.len(),
            c@ == s@,
            forall|j: int| 0 <= j < i ==> is_digit(c@[j]),
        decreases c@.len() - i,
    {
        if !is_digit_char(c[i]) {
            return false;
        }
        i = i + 1;
    }
    c.len() > 0
}

fn is_letters(s: &str) -> (r: bool)
    ensures
        r == some_letters(s@),
{
    let c: Vec<char> = chars_of(s);
    let mut i: usize = 0;
    while i < c.len()
        invariant
            i <= c@.len(),
            c@ == s@,
            forall|j: int| 0 <= j < i ==> 'a' <= #[trigger] c@[j] <= 'z',
        decreases c@.len() - i,
    {
        if c[i] < 'a' || c[i] > 'z' {
            return false;
        }
        i = i + 1;
    }
    c.len() > 0
}

/// Whether a device name is that of an unpartitioned device.
pub fn is_whole_device(name: &str) -> (r: bool)
    ensures
        r == whole_device(name@),
{
    proof {
        reveal_strlit("nvme");
        reveal_strlit("xvd");
        reveal_strlit("sd");
        reveal_strlit("vd");
        reveal_strlit("mmcblk");
        reveal_strlit("disk");
    }
    if let Some(s) = after_prefix(name, "nvme") {
        return match split_once(s.as_str(), "n") {
            Some((a, b)) => is_digits(a.as_str()) && is_digits(b.as_str()),
            None => false,
        };
    }
    if let Some(s) = after_prefix(name, "xvd") {
        return is_letters(s.as_str());
    }
    if let Some(s) = after_prefix(name, "sd") {
        return is_letters(s.as_str());
    }
    if let Some(s) = after_prefix(name, "vd") {
        return is_letters(s.as_str());
    }
    if let Some(s) = after_prefix(name, "mmcblk") {
        return is_digits(s.as_str());
    }
    if let Some(s) = after_prefix(name, "disk") {
        return is_digits(s.as_str());
    }
    false
}

/// The bytes in a number of 512-byte sectors.
pub open spec fn sector_bytes(word: Seq<char>) -> nat {
    match unsigned_value(word, u64::MAX as nat) {
        Some(n) => held(n * 512),
        None => 0,
    }
}

/// The bytes read and written by the whole devices among some lines of
/// `/proc/diskstats`.
pub open spec fn device_bytes(all: Seq<Seq<char>>) -> (nat, nat)
    decreases all.len(),
{
    if all.len() == 0 {
        (0, 0)
    } else {
        let before = device_bytes(all.drop_last());
        let w = words(all.last());
        if w.len() >= 10 && whole_device(w[2]) {
            (held(before.0 + sector_bytes(w[5])), held(before.1 + sector_bytes(w[9])))
        } else {
            before
        }
    }
}

fn sectors(word: &str) -> (r: u64)
    ensures
        r == sector_bytes(word@),
{
    match parse_u64(word) {
        Some(n) => times_held(n, 512),
        None => 0,
    }
}

/// Sums the byte counters of every whole block device in the text of
/// `/proc/diskstats`: bytes read and bytes written.
pub fn parse_disk_counters(data: &str) -> (r: (u64, u64))
    ensures
        r.0 == device_bytes(lines(data@)).0,
        r.1 == device_bytes(lines(data@)).1,
{
    let all: Vec<String> = split_lines(data);
    let ghost ls = texts(all@);
    let mut read: u64 = 0;
    let mut write: u64 = 0;
    let mut i: usize = 0;
    proof {
        assert(ls.take(0).len() == 0);
    }
    while i < all.len()
        invariant
            i <= all@.len(),
            ls == texts(all@),
            read == device_bytes(ls.take(i as int)).0,
            write == device_bytes(ls.take(i as int)).1,
        decreases all@.len() - i,
    {
        proof {
            assert(ls.take(i + 1).drop_last() =~= ls.take(i as int));
            assert(ls.take(i + 1).last() == all@[i as int]@);
        }
        let w: Vec<String> = split_words(all[i].as_str());
        proof {
            assert(texts(w@).len() == w@.len());
        }
        if w.len() >= 10 && is_whole_device(w[2].as_str()) {
            read = plus_held(read, sectors(w[5].as_str()));
            write = plus_held(write, sectors(w[9].as_str()));
        }
        i = i + 1;
    }
    proof {
        assert(ls.take(all@.len() as int) =~= ls);
    }
    (read, write)
}

/// An octal digit's value.
pub open spec fn octal_digit(c: char) -> Option<nat> {
    if '0' <= c <= '7' {
        Some((c as nat - '0' as nat) as nat)
    } else {
        None
    }
}

/// The character code that three octal digits stand for, where it fits a byte.
pub open spec fn octal_byte(a: char, b: char, c: char) -> Option<nat> {
    match (octal_digit(a), octal_digit(b), octal_digit(c)) {
        (Some(x), Some(y), Some(z)) => if 64 * x + 8 * y + z <= 255 {
            Some(64 * x + 8 * y + z)
        } else {
            None
        },
        _ => None,
    }
}

/// The text from the `i`-th character on, with the octal escapes decoded that
/// the kernel uses for special characters. Everything else is kept as it is.
pub open spec fn unescaped(s: Seq<char>, i: int) -> Seq<char>
    decreases s.len() - i,
{
    if i < 0 || i >= s.len() {
        seq![]
    } else if s[i] == '\\' && i + 3 < s.len() && octal_byte(s[i + 1], s[i + 2], s[i + 3]) is Some {
        seq![(octal_byte(s[i + 1], s[i + 2], s[i + 3])->0) as u8 as char] + unescaped(s, i + 4)
    } else {
        seq![s[i]] + unescaped(s, i + 1)
    }
}

/// A field of `/proc/mounts` with its escapes decoded.
pub open spec fn unescaped_text(s: Seq<char>) -> Seq<char> {
    unescaped(s, 0)
}

/// From the last backslash on, a text is kept as it is.
proof fn lemma_unescaped_rest(s: Seq<char>, i: int)
    requires
        0 <= i <= s.len(),
        forall|k: int| i <= k < s.len() ==> s[k] != '\\',
    ensures
        unescaped(s, i) == s.skip(i),
    decreases s.len() - i,
{
    if i < s.len() {
        lemma_unescaped_rest(s, i + 1);
        assert(unescaped(s, i) =~= s.skip(i));
    } else {
        assert(unescaped(s, i) =~= s.skip(i));
    }
}

/// A text without a backslash holds no escape and is unchanged.
pub proof fn lemma_unescaped_plain(s: Seq<char>)
    requires
        !s.contains('\\'),
    ensures
        unescaped_text(s) == s,
{
    assert forall|k: int| 0 <= k < s.len() implies s[k] != '\\' by {
        assert(s.contains(s[k]));
    }
    lemma_unescaped_rest(s, 0);
    assert(s.skip(0) =~= s);
}

fn octal_value(c: char) -> (r: Option<u32>)
    ensures
        match r {
            Some(n) => octal_digit(c) == Some(n as nat) && n < 8,
            None => octal_digit(c) is None,
        },
{
    if '0' <= c && c <= '7' {
        Some(c as u32 - 48)
    } else {
        None
    }
}

fn octal_of(a: char, b: char, c: char) -> (r: Option<u8>)
    ensures
        match r {
            Some(n) => octal_byte(a, b, c) == Some(n as nat),
            None => octal_byte(a, b, c) is None,
        },
{
    if let Some(x) = octal_value(a) {
        if let Some(y) = octal_value(b) {
            if let Some(z) = octal_value(c) {
                let v: u32 = 64 * x + 8 * y + z;
                if v <= 255 {
                    return Some(v as u8);
                }
            }
        }
    }
    None
}

/// Decodes the octal escapes (`\040` space, `\011` tab, ...) in a field of
/// `/proc/mounts`. A text without a backslash comes back unchanged.
pub fn unescape_mount(s: &str) -> (r: String)
    ensures
        r@ == unescaped_text(s@),
        !s@.contains('\\') ==> r@ == s@,
{
    let b: Vec<char> = chars_of(s);
    let n: usize = b.len();
    let mut out = String::new();
    let mut i: usize = 0;
    proof {
        assert(out@ + unescaped(b@, 0) =~= unescaped(b@, 0));
        if !s@.contains('\\') {
            lemma_unescaped_plain(s@);
        }
    }
    while i < n
        invariant
            i <= n,
            n == b@.len(),
            out@ + unescaped(b@, i as int) == unescaped(b@, 0),
        decreases n - i,
    {
        let ghost done = out@;
        if b[i] == '\\' && n - i > 3 {
            if let Some(code) = octal_of(b[i + 1], b[i + 2], b[i + 3]) {
                out.push(code as char);
                proof {
                    assert(done.push(code as char) + unescaped(b@, i + 4) =~= done + (seq![code as char] + unescaped(
                        b@,
                        i + 4,
                    )));
                }
                i = i + 4;
                continue;
            }
        }
        out.push(b[i]);
        proof {
            let c = b@[i as int];
            assert(done.push(c) + unescaped(b@, i + 1) =~= done + (seq![c] + unescaped(b@, i + 1)));
        }
        i = i + 1;
    }
    proof {
        assert(out@ + unescaped(b@, n as int) =~= out@);
    }
    out
}

/// The pseudo filesystem types among some lines of `/proc/filesystems`.
pub open spec fn nodev_types(all: Seq<Seq<char>>) -> Seq<Seq<char>>
    decreases all.len(),
{
    if all.len() == 0 {
        seq![]
    } else {
        let before = nodev_types(all.drop_last());
        let ty = trimmed(all.last().skip(5));
        if begins(all.last(), "nodev"@) && ty.len() > 0 {
            before.push(ty)
        } else {
            before
        }
    }
}

/// The pseudo (not block-backed) filesystem types in the text of
/// `/proc/filesystems`.
pub fn nodev_fstypes(data: &str) -> (r: Vec<String>)
    ensures
        texts(r@) == nodev_types(lines(data@)),
{
    broadcast use crate::chars::group_texts;

    let all: Vec<String> = split_lines(data);
    let ghost ls = texts(all@);
    let mut out: Vec<String> = Vec::new();
    let mut i: usize = 0;
    proof {
        reveal_strlit("nodev");
        assert(ls.take(0).len() == 0);
        assert(texts(out@) =~= nodev_types(ls.take(0)));
    }
    while i < all.len()
        invariant
            i <= all@.len(),
            ls == texts(all@),
            "nodev"@.len() == 5,
            texts(out@) == nodev_types(ls.take(i as int)),
        decreases all@.len() - i,
    {
        broadcast use crate::chars::group_texts;

        proof {
            assert(ls.take(i + 1).drop_last() =~= ls.take(i as int));
            assert(ls.take(i + 1).last() == all@[i as int]@);
        }
        if let Some(rest) = after_prefix(all[i].as_str(), "nodev") {
            let ty = trim(rest.as_str());
            if !ty.as_str().is_empty() {
                out.push(ty);
            }
        }
        i = i + 1;
    }
    proof {
        assert(ls.take(all@.len() as int) =~= ls);
    }
    out
}

/// A mounted device and where it is mounted.
pub struct MountPoint {
    pub device: String,
    pub path: String,
}

/// The devices and paths of a list of mount points.
pub open spec fn point_texts(v: Seq<MountPoint>) -> Seq<(Seq<char>, Seq<char>)> {
    Seq::new(v.len(), |i: int| (v[i].device@, v[i].path@))
}

/// The mounts of physical filesystems among some lines of `/proc/mounts`.
pub open spec fn physical_mounts(all: Seq<Seq<char>>, nodev: Seq<Seq<char>>) -> Seq<(Seq<char>, Seq<char>)>
    decreases all.len(),
{
    if all.len() == 0 {
        seq![]
    } else {
        let before = physical_mounts(all.drop_last(), nodev);
        let w = words(all.last());
        if w.len() >= 3 && w[2] != "squashfs"@ && !nodev.contains(w[2]) {
            before.push((unescaped_text(w[0]), unescaped_text(w[1])))
        } else {
            before
        }
    }
}

/// Whether a text is in a list.
pub fn listed(list: &Vec<String>, s: &str) -> (r: bool)
    ensures
        r == texts(list@).contains(s@),
{
    let mut i: usize = 0;
    while i < list.len()
        invariant
            i <= list@.len(),
            forall|k: int| 0 <= k < i ==> texts(list@)[k] != s@,
        decreases list@.len() - i,
    {
        if same(list[i].as_str(), s) {
            proof {
                assert(texts(list@)[i as int] == s@);
            }
            return true;
        }
        i = i + 1;
    }
    proof {
        assert(texts(list@).len() == list@.len());
    }
    false
}

/// The mounts in the text of `/proc/mounts` that may be physical filesystems:
/// pseudo filesystems and squashfs images are left out.
pub fn mount_points(mounts: &str, nodev: &Vec<String>) -> (r: Vec<MountPoint>)
    ensures
        point_texts(r@) == physical_mounts(lines(mounts@), texts(nodev@)),
{
    let all: Vec<String> = split_lines(mounts);
    let ghost ls = texts(all@);
    let mut out: Vec<MountPoint> = Vec::new();
    let mut i: usize = 0;
    proof {
        assert(ls.take(0).len() == 0);
        assert(point_texts(out@) =~= physical_mounts(ls.take(0), texts(nodev@)));
    }
    while i < all.len()
        invariant
            i <= all@.len(),
            ls == texts(all@),
            point_texts(out@) == physical_mounts(ls.take(i as int), texts(nodev@)),
        decreases all@.len() - i,
    {
        proof {
            assert(ls.take(i + 1).drop_last() =~= ls.take(i as int));
            assert(ls.take(i + 1).last() == all@[i as int]@);
        }
        let w: Vec<String> = split_words(all[i].as_str());
        proof {
            assert(texts(w@).len() == w@.len());
        }
        if w.len() >= 3 && !same(w[2].as_str(), "squashfs") && !listed(nodev, w[2].as_str()) {
            let p = MountPoint { device: unescape_mount(w[0].as_str()), path: unescape_mount(w[1].as_str()) };
            let ghost before = point_texts(out@);
            let ghost one = (p.device@, p.path@);
            out.push(p);
            proof {
                assert(point_texts(out@) =~= before.push(one));
            }
        }
        i = i + 1;
    }
    proof {
        assert(ls.take(all@.len() as int) =~= ls);
    }
    out
}

/// OS-internal helper volumes (APFS helpers under `/System/Volumes`, devfs,
/// automounter) rather than ones a user thinks of as storage.
pub open spec fn internal_mount(path: Seq<char>, fstype: Seq<char>) -> bool {
    fstype == "devfs"@ || fstype == "autofs"@ || begins(path, "/System/Volumes/"@)
}

/// Whether a mountpoint is an OS-internal helper.
pub fn system_mount(mountpoint: &str, fstype: &str) -> (r: bool)
    ensures
        r == internal_mount(mountpoint@, fstype@),
{
    same(fstype, "devfs") || same(fstype, "autofs") || starts(mountpoint, "/System/Volumes/")
}

/// Whether a volume is storage to list: neither a squashfs image nor an
/// OS-internal helper.
pub fn is_storage(mountpoint: &str, fstype: &str) -> (r: bool)
    ensures
        r == (fstype@ != "squashfs"@ && !internal_mount(mountpoint@, fstype@)),
{
    !same(fstype, "squashfs") && !system_mount(mountpoint, fstype)
}

/// One mounted filesystem's usage snapshot.
pub struct Mount {
    pub path: String,
    pub device: String,
    pub total: u64,
    pub used: u64,
    pub used_percent: Num,
}

/// Whether a device is among some mounts.
pub open spec fn device_seen(mounts: Seq<Mount>, device: Seq<char>) -> bool {
    exists|k: int| 0 <= k < mounts.len() && (#[trigger] mounts[k]).device@ == device
}

/// The mounts of some mount points with their usages: each device once, at the
/// first place where it holds anything.
pub open spec fn first_mounts(points: Seq<MountPoint>, usages: Seq<Option<Usage>>) -> Seq<Mount>
    decreases points.len(),
{
    if points.len() == 0 {
        seq![]
    } else {
        let before = first_mounts(points.drop_last(), usages);
        let p = points.last();
        let i = points.len() - 1;
        if i < usages.len() && usages[i] is Some && (usages[i]->0).total > 0 && !device_seen(before, p.device@) {
            let u = usages[i]->0;
            before.push(
                Mount { path: p.path, device: p.device, total: u.total, used: u.used, used_percent: u.used_percent },
            )
        } else {
            before
        }
    }
}

/// Mounts by their paths.
pub open spec fn by_path() -> spec_fn(Mount, Mount) -> bool {
    |a: Mount, b: Mount| text_before(a.path@, b.path@)
}

fn is_seen(mounts: &Vec<Mount>, device: &str) -> (r: bool)
    ensures
        r == device_seen(mounts@, device@),
{
    let mut i: usize = 0;
    while i < mounts.len()
        invariant
            i <= mounts@.len(),
            forall|k: int| 0 <= k < i ==> (#[trigger] mounts@[k]).device@ != device@,
        decreases mounts@.len() - i,
    {
        if same(mounts[i].device.as_str(), device) {
            return true;
        }
        i = i + 1;
    }
    false
}

/// Puts a mount behind those whose path comes no later.
fn place_mount(out: &mut Vec<Mount>, m: Mount)
    ensures
        final(out)@ == old(out)@.insert(slot(old(out)@, m, by_path()), m),
{
    let ghost before = out@;
    let mut at: usize = out.len();
    proof {
        assert(before.take(at as int) =~= before);
    }
    while at > 0 && comes_before(m.path.as_str(), out[at - 1].path.as_str())
        invariant
            at <= out@.len(),
            out@ == before,
            slot(before, m, by_path()) == slot(before.take(at as int), m, by_path()),
        decreases at,
    {
        proof {
            assert(before.take(at as int).drop_last() =~= before.take(at - 1));
        }
        at = at - 1;
    }
    proof {
        if at > 0 {
            assert(before.take(at as int).last() == before[at - 1]);
        }
    }
    out.insert(at, m);
}

/// Usage of every mounted physical filesystem, sorted by mountpoint. Further
/// mounts of an already listed device are skipped, as are filesystems whose
/// usage could not be had or that hold nothing.
pub fn mounts(points: &Vec<MountPoint>, usages: &Vec<Option<Usage>>) -> (r: Vec<Mount>)
    ensures
        r@ == arranged(first_mounts(points@, usages@), by_path()),
{
    let mut first: Vec<Mount> = Vec::new();
    let mut i: usize = 0;
    proof {
        assert(points@.take(0).len() == 0);
        assert(first@ =~= first_mounts(points@.take(0), usages@));
    }
    while i < points.len()
        invariant
            i <= points@.len(),
            first@ == first_mounts(points@.take(i as int), usages@),
        decreases points@.len() - i,
    {
        proof {
            assert(points@.take(i + 1).drop_last() =~= points@.take(i as int));
            assert(points@.take(i + 1).last() == points@[i as int]);
        }
        if i < usages.len() {
            if let Some(u) = usages[i] {
                if u.total > 0 && !is_seen(&first, points[i].device.as_str()) {
                    first.push(
                        Mount {
                            path: points[i].path.clone(),
                            device: points[i].device.clone(),
                            total: u.total,
                            used: u.used,
                            used_percent: u.used_percent,
                        },
                    );
                }
            }
        }
        i = i + 1;
    }
    let ghost all = first@;
    proof {
        assert(points@.take(points@.len() as int) =~= points@);
    }
    let mut out: Vec<Mount> = Vec::new();
    let n: usize = first.len();
    let mut k: usize = 0;
    proof {
        assert(all.skip(0) =~= all);
        assert(all.take(0).len() == 0);
        assert(out@ =~= arranged(all.take(0), by_path()));
    }
    while k < n
        invariant
            k <= n,
            n == all.len(),
            first@ == all.skip(k as int),
            out@ == arranged(all.take(k as int), by_path()),
        decreases n - k,
    {
        let m = first.remove(0);
        proof {
            assert(m == all[k as int]);
            assert(all.skip(k as int).remove(0) =~= all.skip(k + 1));
            assert(all.take(k + 1).drop_last() =~= all.take(k as int));
            assert(all.take(k + 1).last() == m);
        }
        place_mount(&mut out, m);
        k = k + 1;
    }
    proof {
        assert(all.take(n as int) =~= all);
    }
    out
}

/// A list of mounts names no device twice.
pub open spec fn devices_apart(v: Seq<Mount>) -> bool {
    forall|i: int, j: int| 0 <= i < j < v.len() ==> (#[trigger] v[i]).device@ != (#[trigger] v[j]).device@
}

proof fn lemma_first_mounts_apart(points: Seq<MountPoint>, usages: Seq<Option<Usage>>)
    ensures
        devices_apart(first_mounts(points, usages)),
    decreases points.len(),
{
    let all = first_mounts(points, usages);
    if points.len() > 0 {
        lemma_first_mounts_apart(points.drop_last(), usages);
        let before = first_mounts(points.drop_last(), usages);
        assert forall|i: int, j: int| 0 <= i < j < all.len() implies (#[trigger] all[i]).device@ != (
        #[trigger] all[j]).device@ by {
            assert(all[i] == before[i]);
            if j < before.len() {
                assert(all[j] == before[j]);
            }
        }
    }
}

/// The list of mounts names no device twice, is in the order of its paths and
/// holds exactly the first usable mount of each device.
pub proof fn lemma_mounts_unique(points: Seq<MountPoint>, usages: Seq<Option<Usage>>)
    ensures
        ({
            let listed = arranged(first_mounts(points, usages), by_path());
            &&& devices_apart(listed)
            &&& crate::sort::in_order(listed, by_path())
            &&& listed.to_multiset() == first_mounts(points, usages).to_multiset()
        }),
{
    let all = first_mounts(points, usages);
    let listed = arranged(all, by_path());
    let path = |m: Mount| m.path@;
    crate::sort::lemma_text_order(path);
    assert(by_path() =~= (|a: Mount, b: Mount| text_before(path(a), path(b))));
    crate::sort::lemma_arranged_in_order(all, |m: Mount| true, by_path());
    crate::sort::lemma_arranged_permutes(all, by_path());
    lemma_first_mounts_apart(points, usages);
    assert(all.no_duplicates()) by {
        assert forall|i: int, j: int| 0 <= i < all.len() && 0 <= j < all.len() && i != j implies all[i] != all[j] by {
            if i < j {
                assert(all[i].device@ != all[j].device@);
            } else {
                assert(all[j].device@ != all[i].device@);
            }
        }
    }
    all.lemma_multiset_has_no_duplicates();
    listed.lemma_multiset_has_no_duplicates_conv();
    assert forall|i: int, j: int| 0 <= i < j < listed.len() implies (#[trigger] listed[i]).device@ != (
    #[trigger] listed[j]).device@ by {
        crate::sort::lemma_arranged_keeps(all, by_path(), listed[i]);
        crate::sort::lemma_arranged_keeps(all, by_path(), listed[j]);
        assert(listed.contains(listed[i]) && listed.contains(listed[j]));
        let a = choose|k: int| 0 <= k < all.len() && all[k] == listed[i];
        let b = choose|k: int| 0 <= k < all.len() && all[k] == listed[j];
        assert(a != b);
        if a < b {
            assert(all[a].device@ != all[b].device@);
        } else {
            assert(all[b].device@ != all[a].device@);
        }
    }
}

/// A filesystem's usage as `df` tells it: all its blocks, those that are not
/// free, and the share of these in what users can have, used or available.
pub proof fn lemma_usage_like_df(b: FsBlocks)
    requires
        b.fragment_size > 0,
        b.free <= b.blocks,
        b.available <= b.free,
        b.blocks * b.fragment_size <= u64::MAX,
    ensures
        b.usage().total == b.blocks * b.fragment_size,
        b.usage().used == (b.blocks - b.free) * b.fragment_size,
        b.blocks - b.free + b.available > 0 ==> within(
            b.usage().used_percent.value(),
            (b.blocks - b.free) as real / (b.blocks - b.free + b.available) as real * 100 as real,
            14 as real,
        ),
        b.blocks == 0 ==> b.usage().used_percent == Num::spec_zero(),
{
    let u = b.fragment_size as nat;
    let used = (b.blocks - b.free) as nat;
    let avail = b.available as nat;
    assert(used * u <= b.blocks * u && (used + avail) * u <= b.blocks * u && used * u + avail * u == (used + avail) * u)
        by (nonlinear_arith)
        requires
            used <= b.blocks,
            used + avail <= b.blocks,
    ;
    assert(avail * u >= 0) by (nonlinear_arith);
    assert(b.blocks == 0 ==> used * u == 0 && avail * u == 0) by (nonlinear_arith)
        requires
            used <= b.blocks,
            used + avail <= b.blocks,
    ;
    if used + avail > 0 {
        assert((used + avail) * u > 0) by (nonlinear_arith)
            requires
                used + avail > 0,
                u > 0,
        ;
        lemma_percent_value(used * u, (used + avail) * u);
        let (x, y, z) = (used as real, (used + avail) as real, u as real);
        assert((used * u) as real / ((used + avail) * u) as real == x / y) by (nonlinear_arith)
            requires
                x == used as real,
                y == (used + avail) as real,
                z == u as real,
                y >= 1 as real,
                z >= 1 as real,
        {
            assert((used * u) as real == x * z);
            assert(((used + avail) * u) as real == y * z);
            let q = x / y;
            assert(q * y == x);
            assert(q * (y * z) == x * z);
            assert(y * z > 0 as real);
        }
    }
}

/// Where a filesystem tells no fragment size its block size stands in.
pub proof fn lemma_block_size_stands_in(b: FsBlocks)
    requires
        b.fragment_size == 0,
    ensures
        b.usage() == (FsBlocks { fragment_size: b.block_size, ..b }).usage(),
{
}

/// The disk's throughput is what its counters grew by over the time that
/// passed, reads with reads and writes with writes. A counter that went back
/// leaves the rate it had, and so does a reading at the same time.
pub proof fn lemma_disk_paced(d: Disk, usage: Option<Usage>, read: u64, write: u64, now: u64)
    ensures
        ({
            let u = d.after(usage, read, write, now);
            let ns = (now - d.prev_time) as nat;
            &&& now > d.prev_time && read >= d.prev_read ==> paced(u.read_per_sec, read, d.prev_read, ns)
            &&& now > d.prev_time && write >= d.prev_write ==> paced(u.write_per_sec, write, d.prev_write, ns)
            &&& now <= d.prev_time || read < d.prev_read ==> u.read_per_sec == d.read_per_sec
            &&& now <= d.prev_time || write < d.prev_write ==> u.write_per_sec == d.write_per_sec
            &&& u.prev_read == read && u.prev_write == write && u.prev_time == now
            &&& usage matches Some(x) ==> u.used == x.used && u.total == x.total && u.used_percent == x.used_percent
            &&& usage is None ==> u.used == d.used && u.total == d.total && u.used_percent == d.used_percent
        }),
{
    lemma_seconds_value(delta(now, d.prev_time));
    if now > d.prev_time {
        lemma_paced(read, d.prev_read, (now - d.prev_time) as nat);
        lemma_paced(write, d.prev_write, (now - d.prev_time) as nat);
    }
}

/// Whether a line of `/proc/diskstats` tells the sectors read and written of a
/// device.
pub open spec fn tells(line: Seq<char>, device: Seq<char>, read: nat, written: nat) -> bool {
    let w = words(line);
    w.len() >= 10 && w[2] == device && unsigned_value(w[5], u64::MAX as nat) == Some(read) && unsigned_value(
        w[9],
        u64::MAX as nat,
    ) == Some(written)
}

/// Another line adds the sectors of a whole device, of 512 bytes each, and
/// nothing for a partition.
pub proof fn lemma_sectors_add_up(all: Seq<Seq<char>>, line: Seq<char>, device: Seq<char>, read: nat, written: nat)
    requires
        tells(line, device, read, written),
        device_bytes(all).0 + 512 * read <= u64::MAX,
        device_bytes(all).1 + 512 * written <= u64::MAX,
    ensures
        whole_device(device) ==> device_bytes(all.push(line)) == (
            (device_bytes(all).0 + 512 * read) as nat,
            (device_bytes(all).1 + 512 * written) as nat,
        ),
        !whole_device(device) ==> device_bytes(all.push(line)) == device_bytes(all),
        device_bytes(Seq::<Seq<char>>::empty()) == (0nat, 0nat),
{
    assert(all.push(line).drop_last() =~= all);
}

/// Disks are whole devices and their partitions are not: letters name a SCSI,
/// virtual or Xen disk and a digit behind them its partition; NVMe disks and
/// cards end in a digit and have `p` before the partition's.
pub proof fn lemma_partitions_apart(letters: Seq<char>, digits: Seq<char>, more: Seq<char>)
    requires
        letters.len() > 0,
        forall|i: int| 0 <= i < letters.len() ==> 'a' <= #[trigger] letters[i] <= 'z',
        digits.len() > 0,
        forall|i: int| 0 <= i < digits.len() ==> '0' <= #[trigger] digits[i] <= '9',
        more.len() > 0,
        forall|i: int| 0 <= i < more.len() ==> '0' <= #[trigger] more[i] <= '9',
    ensures
        whole_device("sd"@ + letters) && !whole_device("sd"@ + letters + digits),
        whole_device("vd"@ + letters) && !whole_device("vd"@ + letters + digits),
        whole_device("xvd"@ + letters) && !whole_device("xvd"@ + letters + digits),
        whole_device("mmcblk"@ + digits) && !whole_device("mmcblk"@ + digits + "p"@ + more),
        !whole_device("loop"@ + digits) && !whole_device("dm-"@ + digits) && !whole_device("sr"@ + digits),
{
    reveal_strlit("nvme");
    reveal_strlit("xvd");
    reveal_strlit("sd");
    reveal_strlit("vd");
    reveal_strlit("mmcblk");
    reveal_strlit("disk");
    reveal_strlit("loop");
    reveal_strlit("dm-");
    reveal_strlit("sr");
    reveal_strlit("p");
    lemma_lettered("sd"@, letters, digits, 2);
    lemma_lettered("vd"@, letters, digits, 2);
    lemma_lettered("xvd"@, letters, digits, 3);
    let card = "mmcblk"@ + digits;
    let part = card + "p"@ + more;
    assert(card.skip(6) =~= digits);
    assert(part.skip(6)[digits.len() as int] == 'p');
    assert(!begins(card, "nvme"@) && !begins(card, "xvd"@) && !begins(card, "sd"@) && !begins(card, "vd"@)) by {
        assert(card[0] == 'm');
        lemma_not_begun(card);
    }
    assert(!begins(part, "nvme"@) && !begins(part, "xvd"@) && !begins(part, "sd"@) && !begins(part, "vd"@)) by {
        assert(part[0] == 'm');
        lemma_not_begun(part);
    }
    assert(begins(card, "mmcblk"@)) by {
        assert(card.subrange(0, 6) =~= "mmcblk"@);
    }
    assert(begins(part, "mmcblk"@)) by {
        assert(part.subrange(0, 6) =~= "mmcblk"@);
    }
    lemma_foreign("loop"@ + digits);
    lemma_foreign("dm-"@ + digits);
    lemma_foreign("sr"@ + digits);
}

proof fn lemma_not_begun(s: Seq<char>)
    requires
        s.len() > 0,
        s[0] == 'm',
    ensures
        !begins(s, "nvme"@) && !begins(s, "xvd"@) && !begins(s, "sd"@) && !begins(s, "vd"@),
{
    reveal_strlit("nvme");
    reveal_strlit("xvd");
    reveal_strlit("sd");
    reveal_strlit("vd");
    assert(begins(s, "nvme"@) ==> s[0] == s.subrange(0, 4)[0]);
    assert(begins(s, "xvd"@) ==> s[0] == s.subrange(0, 3)[0]);
    assert(begins(s, "sd"@) ==> s[0] == s.subrange(0, 2)[0]);
    assert(begins(s, "vd"@) ==> s[0] == s.subrange(0, 2)[0]);
}

/// A name that begins otherwise is no disk.
proof fn lemma_foreign(s: Seq<char>)
    requires
        s.len() > 2,
        s[0] == 'l' || (s[0] == 'd' && s[1] == 'm') || (s[0] == 's' && s[1] == 'r'),
    ensures
        !whole_device(s),
{
    reveal_strlit("nvme");
    reveal_strlit("xvd");
    reveal_strlit("sd");
    reveal_strlit("vd");
    reveal_strlit("mmcblk");
    reveal_strlit("disk");
    assert(begins(s, "nvme"@) ==> s[0] == s.subrange(0, 4)[0]);
    assert(begins(s, "xvd"@) ==> s[0] == s.subrange(0, 3)[0]);
    assert(begins(s, "sd"@) ==> s[0] == s.subrange(0, 2)[0] && s[1] == s.subrange(0, 2)[1]);
    assert(begins(s, "vd"@) ==> s[0] == s.subrange(0, 2)[0]);
    assert(begins(s, "mmcblk"@) ==> s[0] == s.subrange(0, 6)[0]);
    assert(begins(s, "disk"@) ==> s[0] == s.subrange(0, 4)[0] && s[1] == s.subrange(0, 4)[1]);
}

/// Letters behind a disk's kind name the disk; a digit behind them does not.
proof fn lemma_lettered(kind: Seq<char>, letters: Seq<char>, digits: Seq<char>, n: int)
    requires
        kind == "sd"@ || kind == "vd"@ || kind == "xvd"@,
        n == kind.len(),
        letters.len() > 0,
        forall|i: int| 0 <= i < letters.len() ==> 'a' <= #[trigger] letters[i] <= 'z',
        digits.len() > 0,
        forall|i: int| 0 <= i < digits.len() ==> '0' <= #[trigger] digits[i] <= '9',
    ensures
        whole_device(kind + letters) && !whole_device(kind + letters + digits),
{
    reveal_strlit("nvme");
    reveal_strlit("xvd");
    reveal_strlit("sd");
    reveal_strlit("vd");
    let a = kind + letters;
    let b = a + digits;
    assert(a.subrange(0, n) =~= kind && b.subrange(0, n) =~= kind);
    assert(a.skip(n) =~= letters);
    assert(b.skip(n)[letters.len() as int] == digits[0]);
    assert(begins(a, "nvme"@) ==> a[0] == a.subrange(0, 4)[0]);
    assert(begins(b, "nvme"@) ==> b[0] == b.subrange(0, 4)[0]);
    assert(begins(a, "xvd"@) ==> a[0] == a.subrange(0, 3)[0]);
    assert(begins(b, "xvd"@) ==> b[0] == b.subrange(0, 3)[0]);
    assert(begins(a, "sd"@) ==> a[0] == a.subrange(0, 2)[0]);
    assert(begins(b, "sd"@) ==> b[0] == b.subrange(0, 2)[0]);
    assert(a[0] == kind[0] && b[0] == kind[0]);
}

/// Whether a line of `/proc/mounts` mounts a device at a path as a filesystem.
pub open spec fn mounted(line: Seq<char>, device: Seq<char>, path: Seq<char>, fstype: Seq<char>) -> bool {
    let w = words(line);
    w.len() >= 3 && unescaped_text(w[0]) == device && unescaped_text(w[1]) == path && w[2] == fstype
}

/// Every mount is a candidate in its turn, its device and path as they are
/// named, unless its filesystem is a pseudo one or a squashfs image.
pub proof fn lemma_mounts_in_turn(
    all: Seq<Seq<char>>,
    line: Seq<char>,
    nodev: Seq<Seq<char>>,
    device: Seq<char>,
    path: Seq<char>,
    fstype: Seq<char>,
)
    requires
        mounted(line, device, path, fstype),
    ensures
        fstype != "squashfs"@ && !nodev.contains(fstype) ==> physical_mounts(all.push(line), nodev) == physical_mounts(
            all,
            nodev,
        ).push((device, path)),
        fstype == "squashfs"@ || nodev.contains(fstype) ==> physical_mounts(all.push(line), nodev) == physical_mounts(
            all,
            nodev,
        ),
{
    assert(all.push(line).drop_last() =~= all);
}

/// The names of NVMe namespaces and of Macintosh disks are those of whole
/// devices, and an NVMe partition's is not.
pub proof fn lemma_nvme_partitions_apart(a: Seq<char>, b: Seq<char>, p: Seq<char>)
    requires
        a.len() > 0,
        forall|i: int| 0 <= i < a.len() ==> '0' <= #[trigger] a[i] <= '9',
        b.len() > 0,
        forall|i: int| 0 <= i < b.len() ==> '0' <= #[trigger] b[i] <= '9',
    ensures
        whole_device("nvme"@ + a + "n"@ + b),
        !whole_device("nvme"@ + a + "n"@ + b + "p"@ + p),
        !whole_device("nvme"@ + a),
        whole_device("disk"@ + a),
{
    reveal_strlit("nvme");
    reveal_strlit("n");
    reveal_strlit("p");
    reveal_strlit("xvd");
    reveal_strlit("sd");
    reveal_strlit("vd");
    reveal_strlit("mmcblk");
    reveal_strlit("disk");
    let whole = "nvme"@ + a + "n"@ + b;
    let part = whole + "p"@ + p;
    let bare = "nvme"@ + a;
    let mac = "disk"@ + a;
    assert(whole.subrange(0, 4) =~= "nvme"@);
    assert(part.subrange(0, 4) =~= "nvme"@);
    assert(bare.subrange(0, 4) =~= "nvme"@);
    assert(whole.skip(4) =~= a + "n"@ + b);
    assert(part.skip(4) =~= a + "n"@ + (b + "p"@ + p));
    assert(bare.skip(4) =~= a);
    lemma_split_at_n(a, b);
    lemma_split_at_n(a, b + "p"@ + p);
    assert((b + "p"@ + p)[b.len() as int] == 'p');
    lemma_found(a, "n"@);
    if occurs(a, "n"@) {
        let i = choose|i: int| 0 <= i <= a.len() - 1 && #[trigger] a.subrange(i, i + "n"@.len()) == "n"@;
        assert(a.subrange(i, i + 1)[0] == a[i]);
    }
    assert(mac[0] == 'd');
    assert(begins(mac, "nvme"@) ==> mac[0] == mac.subrange(0, 4)[0]);
    assert(begins(mac, "xvd"@) ==> mac[0] == mac.subrange(0, 3)[0]);
    assert(begins(mac, "sd"@) ==> mac[0] == mac.subrange(0, 2)[0]);
    assert(begins(mac, "vd"@) ==> mac[0] == mac.subrange(0, 2)[0]);
    assert(begins(mac, "mmcblk"@) ==> mac[0] == mac.subrange(0, 6)[0]);
    assert(mac.subrange(0, 4) =~= "disk"@);
    assert(mac.skip(4) =~= a);
}

proof fn lemma_split_at_n(a: Seq<char>, rest: Seq<char>)
    requires
        forall|i: int| 0 <= i < a.len() ==> '0' <= #[trigger] a[i] <= '9',
    ensures
        halves(a + "n"@ + rest, "n"@) == Some((a, rest)),
{
    reveal_strlit("n");
    let s = a + "n"@ + rest;
    lemma_found(s, "n"@);
    let n = a.len() as int;
    assert(s.subrange(n, n + "n"@.len()) =~= "n"@);
    match find(s, "n"@) {
        Some(k) => {
            if k < n {
                assert(s.subrange(k, k + 1)[0] == a[k]);
            }
            assert(k == n);
            assert(s.take(k) =~= a);
            assert(s.skip(k + 1) =~= rest);
        },
        None => {},
    }
}

} // verus!
