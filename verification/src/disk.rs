//! `/proc/diskstats`: the cumulative I/O counters of the physical block
//! devices, and their growth between two readings.
use std::time::Instant;

use vstd::prelude::*;

use crate::clock::now;
use crate::text::{
    char_is_digit, chars_of, has_prefix, is_digit, lemma_lines_concat, lines, lines_of, parse_u64, parse_u64_of, starts_with_str, u64_or_zero,
    u64_or_zero_of, views, words, words_of,
};

verus! {

/// Cumulative counters read from `/proc/diskstats`.
#[derive(Debug, Clone, Copy, Default)]
pub struct DiskCounters {
    pub reads_completed: u64,
    pub sectors_read: u64,
    pub writes_completed: u64,
    pub sectors_written: u64,
}

/// The reading kept between two polls: the counters of the last reading,
/// `None` until one was taken, and when that was.
#[derive(Debug, Clone, Copy)]
pub struct DiskSnapshot {
    pub counters: Option<DiskCounters>,
    pub at: Instant,
}

pub open spec fn zero_counters(c: DiskCounters) -> bool {
    c.reads_completed == 0 && c.sectors_read == 0 && c.writes_completed == 0 && c.sectors_written
        == 0
}

impl Default for DiskSnapshot {
    /// The state before the first reading: no counters yet.
    fn default() -> (r: Self)
        ensures
            r.counters is None,
    {
        DiskSnapshot { counters: None, at: now() }
    }
}

/// Device names that are not physical block devices.
pub open spec fn skipped_device(name: Seq<char>) -> bool {
    ||| has_prefix(name, "loop"@)
    ||| has_prefix(name, "ram"@)
    ||| has_prefix(name, "dm-"@)
    ||| has_prefix(name, "sr"@)
    ||| has_prefix(name, "fd"@)
}

/// Returns `true` for device names that should be excluded (not physical block devices).
pub fn skip_device(name: &[char]) -> (r: bool)
    ensures
        r == skipped_device(name@),
{
    starts_with_str(name, "loop") || starts_with_str(name, "ram") || starts_with_str(name, "dm-")
        || starts_with_str(name, "sr") || starts_with_str(name, "fd")
}

/// The name without the ASCII digits at its end.
pub open spec fn without_trailing_digits(n: Seq<char>) -> Seq<char>
    decreases n.len(),
{
    if n.len() > 0 && is_digit(n.last()) {
        without_trailing_digits(n.drop_last())
    } else {
        n
    }
}

pub open spec fn ends_in_digit(n: Seq<char>) -> bool {
    n.len() > 0 && is_digit(n.last())
}

/// Whether a device name names a partition, by the kernel's naming schemes:
/// `nvmeXnY` and `mmcblkX` are whole disks and `...pZ` their partitions;
/// `sdX`, `hdX`, `vdX` and `xvdX` are whole disks and end in a digit only as
/// partitions.  `None` for names of other schemes.
pub open spec fn partition_by_name(n: Seq<char>) -> Option<bool> {
    if has_prefix(n, "nvme"@) || has_prefix(n, "mmcblk"@) {
        let b = without_trailing_digits(n);
        Some(ends_in_digit(n) && b.len() > 0 && b.last() == 'p')
    } else if has_prefix(n, "sd"@) || has_prefix(n, "hd"@) || has_prefix(n, "vd"@) || has_prefix(
        n,
        "xvd"@,
    ) {
        Some(ends_in_digit(n))
    } else {
        None
    }
}

/// Whether a device is a whole disk: by its name where its naming scheme is
/// known, else by minor number 0 (an unreadable minor number counts as 1).
pub open spec fn whole_disk(name: Seq<char>, minor: Seq<char>) -> bool {
    match partition_by_name(name) {
        Some(p) => !p,
        None => parse_u64(minor) == Some(0u64),
    }
}

/// The counters `(reads, sectors read, writes, sectors written)` of one
/// `/proc/diskstats` line, if it describes a whole physical disk: at least
/// ten fields, a name that is not skipped, and a whole disk by `whole_disk`.
/// Unreadable counters count as 0.
pub open spec fn disk_line(line: Seq<char>) -> Option<(u64, u64, u64, u64)> {
    let w = words(line);
    if w.len() < 10 || skipped_device(w[2]) || !whole_disk(w[2], w[1]) {
        None
    } else {
        Some((u64_or_zero(w[3]), u64_or_zero(w[5]), u64_or_zero(w[7]), u64_or_zero(w[9])))
    }
}

proof fn lemma_without_trailing_digits(s: Seq<char>, j: int)
    requires
        0 <= j <= s.len(),
        forall|i: int| j <= i < s.len() ==> is_digit(s[i]),
        j == 0 || !is_digit(s[j - 1]),
    ensures
        without_trailing_digits(s) == s.take(j),
    decreases s.len() - j,
{
    if j == s.len() {
        assert(s.take(j) =~= s);
    } else {
        lemma_without_trailing_digits(s.drop_last(), j);
        assert(s.drop_last().take(j) =~= s.take(j));
    }
}

/// `partition_by_name`, as a value.
pub fn partition_name(n: &[char]) -> (r: Option<bool>)
    ensures
        r == partition_by_name(n@),
{
    let ends_digit = n.len() > 0 && char_is_digit(n[n.len() - 1]);
    if starts_with_str(n, "nvme") || starts_with_str(n, "mmcblk") {
        let mut j: usize = n.len();
        while j > 0 && char_is_digit(n[j - 1])
            invariant
                j <= n@.len(),
                forall|i: int| j <= i < n@.len() ==> is_digit(n@[i]),
            decreases j,
        {
            j = j - 1;
        }
        proof {
            lemma_without_trailing_digits(n@, j as int);
        }
        Some(ends_digit && j > 0 && n[j - 1] == 'p')
    } else if starts_with_str(n, "sd") || starts_with_str(n, "hd") || starts_with_str(n, "vd")
        || starts_with_str(n, "xvd") {
        Some(ends_digit)
    } else {
        None
    }
}

/// The exact sums of the counters of the whole disks.
pub struct DiskSums {
    pub reads: nat,
    pub sectors_read: nat,
    pub writes: nat,
    pub sectors_written: nat,
}

pub open spec fn disk_sums_lines(ls: Seq<Seq<char>>) -> DiskSums
    decreases ls.len(),
{
    if ls.len() == 0 {
        DiskSums { reads: 0, sectors_read: 0, writes: 0, sectors_written: 0 }
    } else {
        let s = disk_sums_lines(ls.drop_last());
        match disk_line(ls.last()) {
            Some((a, b, c, d)) => DiskSums {
                reads: s.reads + a as nat,
                sectors_read: s.sectors_read + b as nat,
                writes: s.writes + c as nat,
                sectors_written: s.sectors_written + d as nat,
            },
            None => s,
        }
    }
}

/// The sums over the whole disks of a `/proc/diskstats` text.
pub open spec fn disk_sums(content: Seq<char>) -> DiskSums {
    disk_sums_lines(lines(content))
}

/// Whether every sum fits in a `u64`; where one does not, the plain
/// additions of the sums overflow.
pub open spec fn sums_fit(s: DiskSums) -> bool {
    s.reads <= u64::MAX && s.sectors_read <= u64::MAX && s.writes <= u64::MAX && s.sectors_written
        <= u64::MAX
}

pub open spec fn counters_are(c: DiskCounters, s: DiskSums) -> bool {
    c.reads_completed == s.reads && c.sectors_read == s.sectors_read && c.writes_completed
        == s.writes && c.sectors_written == s.sectors_written
}

proof fn lemma_disk_sums_grow(ls: Seq<Seq<char>>, i: int)
    requires
        0 <= i <= ls.len(),
    ensures
        disk_sums_lines(ls.take(i)).reads <= disk_sums_lines(ls).reads,
        disk_sums_lines(ls.take(i)).sectors_read <= disk_sums_lines(ls).sectors_read,
        disk_sums_lines(ls.take(i)).writes <= disk_sums_lines(ls).writes,
        disk_sums_lines(ls.take(i)).sectors_written <= disk_sums_lines(ls).sectors_written,
    decreases ls.len(),
{
    if i == ls.len() {
        assert(ls.take(i) =~= ls);
    } else {
        lemma_disk_sums_grow(ls.drop_last(), i);
        assert(ls.drop_last().take(i) =~= ls.take(i));
    }
}

/// `disk_line`, as values.
pub fn parse_disk_line(line: &[char]) -> (r: Option<(u64, u64, u64, u64)>)
    ensures
        r == disk_line(line@),
{
    let w = words_of(line);
    let ghost wv = words(line@);
    assert(views(w@) == wv);
    if w.len() < 10 {
        return None;
    }
    assert(wv[1] == w@[1]@ && wv[2] == w@[2]@ && wv[3] == w@[3]@ && wv[5] == w@[5]@);
    assert(wv[7] == w@[7]@ && wv[9] == w@[9]@);
    if skip_device(&w[2]) {
        return None;
    }
    let whole = match partition_name(&w[2]) {
        Some(p) => !p,
        None => match parse_u64_of(&w[1]) {
            Some(m) => m == 0,
            None => false,
        },
    };
    if !whole {
        return None;
    }
    Some((u64_or_zero_of(&w[3]), u64_or_zero_of(&w[5]), u64_or_zero_of(&w[7]), u64_or_zero_of(&w[9])))
}

/// Sum the counters of the physical whole disks of a `/proc/diskstats`
/// text; `None` exactly where a sum exceeds `u64::MAX`.
pub fn parse_diskstats_checked(content: &str) -> (r: Option<DiskCounters>)
    ensures
        r matches Some(c) ==> sums_fit(disk_sums(content@)) && counters_are(c, disk_sums(content@)),
        r is None ==> !sums_fit(disk_sums(content@)),
{
    let chars = chars_of(content);
    let ls = lines_of(&chars);
    let ghost lv = lines(content@);
    let mut total = DiskCounters {
        reads_completed: 0,
        sectors_read: 0,
        writes_completed: 0,
        sectors_written: 0,
    };
    let mut i: usize = 0;
    while i < ls.len()
        invariant
            i <= ls@.len(),
            views(ls@) == lv,
            lv == lines(content@),
            counters_are(total, disk_sums_lines(lv.take(i as int))),
        decreases ls@.len() - i,
    {
        let line = &ls[i];
        assert(lv[i as int] == line@);
        assert(lv.take(i + 1).drop_last() =~= lv.take(i as int));
        match parse_disk_line(line) {
            Some((a, b, c, d)) => {
                let r1 = total.reads_completed.checked_add(a);
                let r2 = total.sectors_read.checked_add(b);
                let r3 = total.writes_completed.checked_add(c);
                let r4 = total.sectors_written.checked_add(d);
                match (r1, r2, r3, r4) {
                    (Some(n1), Some(n2), Some(n3), Some(n4)) => {
                        total = DiskCounters {
                            reads_completed: n1,
                            sectors_read: n2,
                            writes_completed: n3,
                            sectors_written: n4,
                        };
                    },
                    _ => {
                        proof {
                            let t = lv.take(i + 1);
                            assert(t.last() == line@);
                            assert(disk_sums_lines(t).reads == total.reads_completed + a);
                            assert(disk_sums_lines(t).sectors_read == total.sectors_read + b);
                            assert(disk_sums_lines(t).writes == total.writes_completed + c);
                            assert(disk_sums_lines(t).sectors_written == total.sectors_written
                                + d);
                            lemma_disk_sums_grow(lv, i + 1);
                        }
                        return None;
                    },
                }
            },
            None => {},
        }
        i = i + 1;
    }
    assert(lv.take(lv.len() as int) =~= lv);
    Some(total)
}

/// Parse `/proc/diskstats` content and sum counters across physical devices.
pub fn parse_diskstats(content: &str) -> (r: DiskCounters)
    requires
        sums_fit(disk_sums(content@)),
    ensures
        counters_are(r, disk_sums(content@)),
{
    match parse_diskstats_checked(content) {
        Some(c) => c,
        None => {
            proof {
                assert(false);
            }
            DiskCounters { reads_completed: 0, sectors_read: 0, writes_completed: 0, sectors_written: 0 }
        },
    }
}

pub open spec fn grown(prev: u64, curr: u64) -> u64 {
    if curr >= prev {
        (curr - prev) as u64
    } else {
        0
    }
}

/// The growth of each counter from `prev` to `curr`, 0 where it shrank.
pub open spec fn disk_delta_of(prev: DiskCounters, curr: DiskCounters) -> DiskCounters {
    DiskCounters {
        reads_completed: grown(prev.reads_completed, curr.reads_completed),
        sectors_read: grown(prev.sectors_read, curr.sectors_read),
        writes_completed: grown(prev.writes_completed, curr.writes_completed),
        sectors_written: grown(prev.sectors_written, curr.sectors_written),
    }
}

/// The growth of each counter from `prev` to `curr`, 0 where it shrank.
pub fn disk_deltas(prev: &DiskCounters, curr: &DiskCounters) -> (r: DiskCounters)
    ensures
        r == disk_delta_of(*prev, *curr),
{
    DiskCounters {
        reads_completed: curr.reads_completed.saturating_sub(prev.reads_completed),
        sectors_read: curr.sectors_read.saturating_sub(prev.sectors_read),
        writes_completed: curr.writes_completed.saturating_sub(prev.writes_completed),
        sectors_written: curr.sectors_written.saturating_sub(prev.sectors_written),
    }
}

/// The growth since the kept reading: none at all where no reading was kept
/// yet, else the growth of each counter, 0 where it shrank.
pub open spec fn disk_growth_of(prev: Option<DiskCounters>, curr: DiskCounters) -> DiskCounters {
    match prev {
        None => DiskCounters { reads_completed: 0, sectors_read: 0, writes_completed: 0, sectors_written: 0 },
        Some(p) => disk_delta_of(p, curr),
    }
}

/// The growth of the counters since the kept reading; all zero before the
/// first reading.
pub fn disk_growth(prev: &DiskSnapshot, curr: &DiskCounters) -> (r: DiskCounters)
    ensures
        r == disk_growth_of(prev.counters, *curr),
{
    match &prev.counters {
        None => DiskCounters { reads_completed: 0, sectors_read: 0, writes_completed: 0, sectors_written: 0 },
        Some(p) => disk_deltas(p, curr),
    }
}

/// One poll: the growth since the kept reading, and the state to keep for
/// the next poll, which holds this reading and its time.
pub fn disk_step(prev: &DiskSnapshot, curr: DiskCounters, at: Instant) -> (r: (
    DiskCounters,
    DiskSnapshot,
))
    ensures
        r.0 == disk_growth_of(prev.counters, curr),
        r.1.counters == Some(curr),
        r.1.at == at,
{
    let growth = disk_growth(prev, &curr);
    (growth, DiskSnapshot { counters: Some(curr), at })
}

/// Before the first reading nothing has grown: the first poll after start
/// reports no growth, whatever the counters are.
pub proof fn lemma_first_poll_no_growth(curr: DiskCounters)
    ensures
        zero_counters(disk_growth_of(None, curr)),
{
}

/// Where no counter went down, adding the growth to the earlier reading
/// gives the later one; a reading compared with itself shows no growth.
pub proof fn lemma_disk_delta_restores(prev: DiskCounters, curr: DiskCounters)
    requires
        prev.reads_completed <= curr.reads_completed,
        prev.sectors_read <= curr.sectors_read,
        prev.writes_completed <= curr.writes_completed,
        prev.sectors_written <= curr.sectors_written,
    ensures
        prev.reads_completed + disk_delta_of(prev, curr).reads_completed == curr.reads_completed,
        prev.sectors_read + disk_delta_of(prev, curr).sectors_read == curr.sectors_read,
        prev.writes_completed + disk_delta_of(prev, curr).writes_completed == curr.writes_completed,
        prev.sectors_written + disk_delta_of(prev, curr).sectors_written == curr.sectors_written,
        zero_counters(disk_delta_of(curr, curr)),
{
}

/// The sums over two texts read one after the other are the sums of each.
pub proof fn lemma_disk_sums_concat(a: Seq<Seq<char>>, b: Seq<Seq<char>>)
    ensures
        disk_sums_lines(a + b).reads == disk_sums_lines(a).reads + disk_sums_lines(b).reads,
        disk_sums_lines(a + b).sectors_read == disk_sums_lines(a).sectors_read + disk_sums_lines(
            b,
        ).sectors_read,
        disk_sums_lines(a + b).writes == disk_sums_lines(a).writes + disk_sums_lines(b).writes,
        disk_sums_lines(a + b).sectors_written == disk_sums_lines(a).sectors_written
            + disk_sums_lines(b).sectors_written,
    decreases b.len(),
{
    if b.len() == 0 {
        assert(a + b =~= a);
    } else {
        lemma_disk_sums_concat(a, b.drop_last());
        assert((a + b).drop_last() =~= a + b.drop_last());
        assert((a + b).last() == b.last());
    }
}

/// Lines of skipped devices and of partitions add nothing to the sums.
pub proof fn lemma_excluded_lines_ignored(ls: Seq<Seq<char>>, line: Seq<char>)
    requires
        words(line).len() >= 10,
        skipped_device(words(line)[2]) || !whole_disk(words(line)[2], words(line)[1]),
    ensures
        disk_sums_lines(ls.push(line)) == disk_sums_lines(ls),
{
    assert(ls.push(line).drop_last() =~= ls);
}

/// Every line of a whole disk that is not skipped adds its counters to the
/// sums.
pub proof fn lemma_whole_disk_lines_counted(ls: Seq<Seq<char>>, line: Seq<char>)
    requires
        words(line).len() >= 10,
        !skipped_device(words(line)[2]),
        whole_disk(words(line)[2], words(line)[1]),
    ensures
        ({
            let w = words(line);
            let s = disk_sums_lines(ls);
            let t = disk_sums_lines(ls.push(line));
            &&& t.reads == s.reads + u64_or_zero(w[3])
            &&& t.sectors_read == s.sectors_read + u64_or_zero(w[5])
            &&& t.writes == s.writes + u64_or_zero(w[7])
            &&& t.sectors_written == s.sectors_written + u64_or_zero(w[9])
        }),
{
    assert(ls.push(line).drop_last() =~= ls);
}

proof fn lemma_no_disk_lines(ls: Seq<Seq<char>>)
    requires
        forall|i: int| 0 <= i < ls.len() ==> disk_line(#[trigger] ls[i]) is None,
    ensures
        disk_sums_lines(ls) == (DiskSums { reads: 0, sectors_read: 0, writes: 0, sectors_written: 0 }),
    decreases ls.len(),
{
    if ls.len() > 0 {
        assert(disk_line(ls[ls.len() - 1]) is None);
        lemma_no_disk_lines(ls.drop_last());
    }
}

/// A `/proc/diskstats` text read in two parts, the first ending with a
/// complete line, sums to the sums of the two parts.
pub proof fn lemma_diskstats_concat(a: Seq<char>, b: Seq<char>)
    requires
        a.len() == 0 || a.last() == '\n',
    ensures
        disk_sums(a + b).reads == disk_sums(a).reads + disk_sums(b).reads,
        disk_sums(a + b).sectors_read == disk_sums(a).sectors_read + disk_sums(b).sectors_read,
        disk_sums(a + b).writes == disk_sums(a).writes + disk_sums(b).writes,
        disk_sums(a + b).sectors_written == disk_sums(a).sectors_written + disk_sums(
            b,
        ).sectors_written,
{
    lemma_lines_concat(a, b);
    lemma_disk_sums_concat(lines(a), lines(b));
}

/// Appending text whose every line is a skipped device, a partition or too
/// short leaves the sums as they were.
pub proof fn lemma_excluded_text_ignored(a: Seq<char>, x: Seq<char>)
    requires
        a.len() == 0 || a.last() == '\n',
        forall|i: int| 0 <= i < lines(x).len() ==> disk_line(#[trigger] lines(x)[i]) is None,
    ensures
        disk_sums(a + x) == disk_sums(a),
{
    lemma_diskstats_concat(a, x);
    lemma_no_disk_lines(lines(x));
}

proof fn lemma_first_chars_differ(n: Seq<char>, p: Seq<char>, q: Seq<char>, i: int)
    requires
        0 <= i < p.len(),
        i < q.len(),
        p[i] != q[i],
        has_prefix(n, p),
    ensures
        !has_prefix(n, q),
{
    assert(n.take(p.len() as int)[i] == n[i]);
    if has_prefix(n, q) {
        assert(n.take(q.len() as int)[i] == n[i]);
    }
}

/// Names of the `sd`, `hd`, `vd` and `xvd` schemes name a partition exactly
/// where they end in a digit (`sda1`, `vda2`, `xvdb3`); `sda`, `vdb` and
/// `sdaa` are whole disks.
pub proof fn lemma_lettered_disk_names(n: Seq<char>)
    requires
        has_prefix(n, "sd"@) || has_prefix(n, "hd"@) || has_prefix(n, "vd"@) || has_prefix(
            n,
            "xvd"@,
        ),
    ensures
        partition_by_name(n) == Some(n.len() > 0 && is_digit(n.last())),
        whole_disk(n, Seq::<char>::empty()) == !(n.len() > 0 && is_digit(n.last())),
{
    reveal_strlit("sd");
    reveal_strlit("hd");
    reveal_strlit("vd");
    reveal_strlit("xvd");
    reveal_strlit("nvme");
    reveal_strlit("mmcblk");
    if has_prefix(n, "sd"@) {
        lemma_first_chars_differ(n, "sd"@, "nvme"@, 0);
        lemma_first_chars_differ(n, "sd"@, "mmcblk"@, 0);
    } else if has_prefix(n, "hd"@) {
        lemma_first_chars_differ(n, "hd"@, "nvme"@, 0);
        lemma_first_chars_differ(n, "hd"@, "mmcblk"@, 0);
    } else if has_prefix(n, "vd"@) {
        lemma_first_chars_differ(n, "vd"@, "nvme"@, 0);
        lemma_first_chars_differ(n, "vd"@, "mmcblk"@, 0);
    } else {
        lemma_first_chars_differ(n, "xvd"@, "nvme"@, 0);
        lemma_first_chars_differ(n, "xvd"@, "mmcblk"@, 0);
    }
}

/// NVMe and MMC names that end in digits name a partition exactly where the
/// character before those digits is `p`: `nvme0n1p2` and `mmcblk0p1` are
/// partitions, `nvme0n1` and `mmcblk0` whole disks.
pub proof fn lemma_nvme_mmc_names(b: Seq<char>, c: char, d: Seq<char>)
    requires
        has_prefix(b + seq![c] + d, "nvme"@) || has_prefix(b + seq![c] + d, "mmcblk"@),
        !is_digit(c),
        d.len() > 0,
        forall|i: int| 0 <= i < d.len() ==> is_digit(#[trigger] d[i]),
    ensures
        partition_by_name(b + seq![c] + d) == Some(c == 'p'),
        whole_disk(b + seq![c] + d, Seq::<char>::empty()) == (c != 'p'),
{
    let n = b + seq![c] + d;
    let j: int = b.len() as int + 1;
    assert(n[j - 1] == c);
    assert forall|i: int| j <= i < n.len() implies is_digit(n[i]) by {
        assert(n[i] == d[i - j]);
    }
    lemma_without_trailing_digits(n, j);
    assert(n.last() == d.last());
    assert(d.last() == d[d.len() - 1]);
    assert(n.take(j).last() == c);
}

/// The devices left out are exactly those whose names start with `loop`,
/// `ram`, `dm-`, `sr` or `fd`: loop devices, RAM disks, device-mapper
/// volumes, optical drives and floppies.
pub proof fn lemma_skipped_devices(n: Seq<char>)
    ensures
        skipped_device(n) <==> (has_prefix(n, "loop"@) || has_prefix(n, "ram"@) || has_prefix(
            n,
            "dm-"@,
        ) || has_prefix(n, "sr"@) || has_prefix(n, "fd"@)),
{
}

} // verus!
