//! `/proc/meminfo`: the `key: value kB` table, and the memory and swap
//! figures derived from it.
use vstd::prelude::*;

use crate::text::{
    chars_eq, chars_of, copy_range, find_char, first_index, is_ws, join_fields,
    lemma_first_index_at, lemma_join_fields, lemma_trim_end_take, lemma_trim_start_skip, lines,
    lines_of, plain_field, trim, trimmed, u64_or_zero, u64_or_zero_of, views, words, words_of,
};

verus! {

/// The `(key, bytes)` entry of one `/proc/meminfo` line: the trimmed text
/// before the first colon, and 1024 times the first word after it (0 where
/// that word is missing or unreadable).  A line without a colon has none.
pub open spec fn meminfo_line(line: Seq<char>) -> Option<(Seq<char>, nat)> {
    match first_index(line, ':') {
        None => None,
        Some(p) => {
            let w = words(trim(line.skip(p + 1)));
            let numeric = if w.len() > 0 {
                u64_or_zero(w[0])
            } else {
                0
            };
            Some((trim(line.take(p)), numeric as nat * 1024))
        },
    }
}

pub open spec fn meminfo_entries_lines(ls: Seq<Seq<char>>) -> Seq<(Seq<char>, nat)>
    decreases ls.len(),
{
    if ls.len() == 0 {
        Seq::empty()
    } else {
        let e = meminfo_entries_lines(ls.drop_last());
        match meminfo_line(ls.last()) {
            Some(x) => e.push(x),
            None => e,
        }
    }
}

/// The entries of a `/proc/meminfo` text, in order.
pub open spec fn meminfo_entries(content: Seq<char>) -> Seq<(Seq<char>, nat)> {
    meminfo_entries_lines(lines(content))
}

/// Whether every value fits in a `u64`; where one does not, the
/// multiplication by 1024 overflows.
pub open spec fn meminfo_fits(content: Seq<char>) -> bool {
    forall|i: int|
        0 <= i < meminfo_entries(content).len() ==> (#[trigger] meminfo_entries(content)[i]).1
            <= u64::MAX
}

/// The map that inserting the entries in order builds: a later entry for a
/// key replaces an earlier one.
pub open spec fn entries_map(es: Seq<(Seq<char>, nat)>) -> Map<Seq<char>, u64>
    decreases es.len(),
{
    if es.len() == 0 {
        Map::empty()
    } else {
        entries_map(es.drop_last()).insert(es.last().0, es.last().1 as u64)
    }
}

/// The key/value table of `/proc/meminfo`, values in bytes.
pub struct MemInfo {
    entries: Vec<(Vec<char>, u64)>,
}

pub open spec fn entry_views(es: Seq<(Vec<char>, u64)>) -> Seq<(Seq<char>, nat)> {
    es.map_values(|e: (Vec<char>, u64)| (e.0@, e.1 as nat))
}

impl View for MemInfo {
    type V = Map<Seq<char>, u64>;

    closed spec fn view(&self) -> Map<Seq<char>, u64> {
        entries_map(entry_views(self.entries@))
    }
}

proof fn lemma_entries_map_last(es: Seq<(Seq<char>, nat)>, k: Seq<char>, j: int)
    requires
        -1 <= j < es.len(),
        j >= 0 ==> es[j].0 == k,
        forall|i: int| j < i < es.len() ==> es[i].0 != k,
    ensures
        j >= 0 ==> entries_map(es).contains_key(k) && entries_map(es)[k] == es[j].1 as u64,
        j < 0 ==> !entries_map(es).contains_key(k),
    decreases es.len(),
{
    if es.len() > 0 && j != es.len() - 1 {
        lemma_entries_map_last(es.drop_last(), k, j);
    }
}

impl MemInfo {
    /// An empty table.
    pub fn new() -> (r: MemInfo)
        ensures
            r@ == Map::<Seq<char>, u64>::empty(),
    {
        MemInfo { entries: Vec::new() }
    }

    /// The value recorded for `key`, if any.
    pub fn get(&self, key: &str) -> (r: Option<u64>)
        ensures
            r == (if self@.contains_key(key@) {
                Some(self@[key@])
            } else {
                None::<u64>
            }),
    {
        let k = chars_of(key);
        let ghost es = entry_views(self.entries@);
        let mut i: usize = self.entries.len();
        while i > 0
            invariant
                i <= self.entries@.len(),
                es == entry_views(self.entries@),
                k@ == key@,
                forall|j: int| i <= j < es.len() ==> es[j].0 != key@,
            decreases i,
        {
            if chars_eq(&self.entries[i - 1].0, &k) {
                proof {
                    lemma_entries_map_last(es, key@, i - 1);
                }
                return Some(self.entries[i - 1].1);
            }
            i = i - 1;
        }
        proof {
            lemma_entries_map_last(es, key@, -1);
        }
        None
    }

    /// `get(key)`, 0 where there is no entry.
    pub fn get_or_zero(&self, key: &str) -> (r: u64)
        ensures
            r == (if self@.contains_key(key@) {
                self@[key@]
            } else {
                0
            }),
    {
        match self.get(key) {
            Some(v) => v,
            None => 0,
        }
    }
}

proof fn lemma_meminfo_prefix(ls: Seq<Seq<char>>, i: int)
    requires
        0 <= i <= ls.len(),
    ensures
        meminfo_entries_lines(ls.take(i)).len() <= meminfo_entries_lines(ls).len(),
        forall|j: int|
            0 <= j < meminfo_entries_lines(ls.take(i)).len() ==> meminfo_entries_lines(ls)[j]
                == meminfo_entries_lines(ls.take(i))[j],
    decreases ls.len(),
{
    if i == ls.len() {
        assert(ls.take(i) =~= ls);
    } else {
        lemma_meminfo_prefix(ls.drop_last(), i);
        assert(ls.drop_last().take(i) =~= ls.take(i));
    }
}

/// `meminfo_line`, as values, the value given as the parsed number before
/// its conversion to bytes.
fn parse_meminfo_line(line: &[char]) -> (r: Option<(Vec<char>, u64)>)
    ensures
        r matches Some((k, n)) ==> meminfo_line(line@) == Some((k@, n as nat * 1024)),
        r is None ==> meminfo_line(line@) is None,
{
    let p = match find_char(line, ':') {
        Some(p) => p,
        None => return None,
    };
    assert(p < line.len());
    let head = copy_range(line, 0, p);
    assert(head@ =~= line@.take(p as int));
    let tail = copy_range(line, p + 1, line.len());
    assert(tail@ =~= line@.skip(p + 1));
    let value = trimmed(&tail);
    let w = words_of(&value);
    assert(views(w@) == words(value@));
    let numeric: u64 = if w.len() > 0 {
        assert(words(value@)[0] == w@[0]@);
        u64_or_zero_of(&w[0])
    } else {
        0
    };
    Some((trimmed(&head), numeric))
}

/// Parse `/proc/meminfo` content into a key/value table in bytes; `None`
/// exactly where a value in bytes exceeds `u64::MAX`.
pub fn parse_meminfo_checked(content: &str) -> (r: Option<MemInfo>)
    ensures
        r matches Some(m) ==> meminfo_fits(content@) && m@ == entries_map(
            meminfo_entries(content@),
        ),
        r is None ==> !meminfo_fits(content@),
{
    let chars = chars_of(content);
    let ls = lines_of(&chars);
    let ghost lv = lines(content@);
    let mut entries: Vec<(Vec<char>, u64)> = Vec::new();
    let mut i: usize = 0;
    while i < ls.len()
        invariant
            i <= ls@.len(),
            views(ls@) == lv,
            lv == lines(content@),
            entry_views(entries@) == meminfo_entries_lines(lv.take(i as int)),
        decreases ls@.len() - i,
    {
        let line = &ls[i];
        assert(lv[i as int] == line@);
        assert(lv.take(i + 1).drop_last() =~= lv.take(i as int));
        match parse_meminfo_line(line) {
            Some((key, numeric)) => {
                match numeric.checked_mul(1024) {
                    Some(bytes) => {
                        let ghost prev = entries@;
                        let ghost kv = key@;
                        entries.push((key, bytes));
                        assert(entry_views(entries@) =~= entry_views(prev).push((kv, bytes as nat)));
                    },
                    None => {
                        proof {
                            let t = lv.take(i + 1);
                            let es = meminfo_entries_lines(t);
                            assert(es == entry_views(entries@).push((key@, numeric as nat * 1024)));
                            lemma_meminfo_prefix(lv, i + 1);
                            assert(lv.take(lv.len() as int) =~= lv);
                            let j = es.len() - 1;
                            assert(meminfo_entries(content@)[j] == es[j]);
                        }
                        return None;
                    },
                }
            },
            None => {},
        }
        i = i + 1;
    }
    assert(lv.take(lv.len() as int) =~= lv);
    assert(meminfo_fits(content@)) by {
        assert forall|j: int| 0 <= j < meminfo_entries(content@).len() implies (
        #[trigger] meminfo_entries(content@)[j]).1 <= u64::MAX by {
            assert(meminfo_entries(content@)[j] == entry_views(entries@)[j]);
        }
    }
    Some(MemInfo { entries })
}

/// Parse `/proc/meminfo` content into a key/value table in bytes.
pub fn parse_meminfo(content: &str) -> (r: MemInfo)
    requires
        meminfo_fits(content@),
    ensures
        r@ == entries_map(meminfo_entries(content@)),
{
    match parse_meminfo_checked(content) {
        Some(m) => m,
        None => {
            proof {
                assert(false);
            }
            MemInfo { entries: Vec::new() }
        },
    }
}

/// The memory and swap figures, in bytes.
#[derive(Debug, Clone, Copy)]
pub struct MemStats {
    pub total_bytes: u64,
    pub used_bytes: u64,
    pub active_bytes: u64,
    pub free_bytes: u64,
    pub avail_bytes: u64,
    pub swap_total: u64,
    pub swap_used: u64,
}

/// The value of `key` in `m`, 0 where there is none.
pub open spec fn value_or_zero(m: Map<Seq<char>, u64>, key: Seq<char>) -> u64 {
    if m.contains_key(key) {
        m[key]
    } else {
        0
    }
}

pub open spec fn minus_or_zero(a: u64, b: u64) -> u64 {
    if a >= b {
        (a - b) as u64
    } else {
        0
    }
}

/// The figures `build_stats` derives from a table.
pub open spec fn mem_stats_of(m: Map<Seq<char>, u64>, r: MemStats) -> bool {
    let total = value_or_zero(m, "MemTotal"@);
    let free = value_or_zero(m, "MemFree"@);
    let swap_total = value_or_zero(m, "SwapTotal"@);
    let swap_free = value_or_zero(m, "SwapFree"@);
    &&& r.total_bytes == total
    &&& r.free_bytes == free
    &&& r.avail_bytes == value_or_zero(m, "MemAvailable"@)
    &&& r.active_bytes == value_or_zero(m, "Active"@)
    &&& r.swap_total == swap_total
    &&& r.used_bytes == minus_or_zero(total, free)
    &&& r.swap_used == minus_or_zero(swap_total, swap_free)
}

/// Memory in use is the total less the free memory, swap in use the swap
/// total less the free swap; each is 0 where the free amount is larger.
pub fn build_stats(map: &MemInfo) -> (r: MemStats)
    ensures
        mem_stats_of(map@, r),
{
    let total = map.get_or_zero("MemTotal");
    let free = map.get_or_zero("MemFree");
    let avail = map.get_or_zero("MemAvailable");
    let active = map.get_or_zero("Active");
    let swap_total = map.get_or_zero("SwapTotal");
    let swap_free = map.get_or_zero("SwapFree");
    MemStats {
        total_bytes: total,
        used_bytes: total.saturating_sub(free),
        active_bytes: active,
        free_bytes: free,
        avail_bytes: avail,
        swap_total,
        swap_used: swap_total.saturating_sub(swap_free),
    }
}


/// Memory in use never exceeds the total, nor swap in use the swap total;
/// in use and free together make the total wherever free does not exceed
/// it, and the total and free figures are the `MemTotal` and `MemFree`
/// entries (0 where missing).
pub proof fn lemma_used_within_total(m: Map<Seq<char>, u64>, r: MemStats)
    requires
        mem_stats_of(m, r),
    ensures
        r.used_bytes <= r.total_bytes,
        r.swap_used <= r.swap_total,
        r.used_bytes + r.free_bytes == r.total_bytes || r.used_bytes == 0,
        r.free_bytes <= r.total_bytes ==> r.used_bytes + r.free_bytes == r.total_bytes,
        r.free_bytes > r.total_bytes ==> r.used_bytes == 0,
        m.contains_key("SwapFree"@) && m["SwapFree"@] <= r.swap_total ==> r.swap_used
            + m["SwapFree"@] == r.swap_total,
        r.total_bytes == (if m.contains_key("MemTotal"@) {
            m["MemTotal"@]
        } else {
            0
        }),
        r.free_bytes == (if m.contains_key("MemFree"@) {
            m["MemFree"@]
        } else {
            0
        }),
{
}

/// A `/proc/meminfo` line `key: n kB` (any whitespace after the colon)
/// gives the trimmed key and 1024 times `n`: the values are kibibytes and
/// the table holds bytes.
pub proof fn lemma_meminfo_line_in_bytes(key: Seq<char>, gap: Seq<char>, ws: Seq<Seq<char>>)
    requires
        forall|i: int| 0 <= i < key.len() ==> #[trigger] key[i] != ':',
        forall|i: int| 0 <= i < gap.len() ==> is_ws(#[trigger] gap[i]),
        ws.len() >= 1,
        forall|i: int| 0 <= i < ws.len() ==> plain_field(#[trigger] ws[i], ':'),
    ensures
        meminfo_line(key + seq![':'] + gap + join_fields(ws)) == Some(
            (trim(key), u64_or_zero(ws[0]) as nat * 1024),
        ),
{
    let j = join_fields(ws);
    lemma_join_fields(ws, ':');
    assert(plain_field(ws[0], ':'));
    assert(plain_field(ws[ws.len() - 1], ':'));
    assert(!is_ws(ws[0][0]));
    assert(!is_ws(ws.last()[ws.last().len() - 1]));
    let line = key + seq![':'] + gap + j;
    let c = key.len() as int;
    assert(line[c] == ':');
    assert forall|k: int| 0 <= k < c implies line[k] != ':' by {
        assert(line[k] == key[k]);
    }
    lemma_first_index_at(line, ':', c);
    assert(line.take(c) =~= key);
    let rest = gap + j;
    assert(line.skip(c + 1) =~= rest);
    assert(rest[gap.len() as int] == j[0]);
    lemma_trim_start_skip(rest, gap.len() as int);
    assert(rest.skip(gap.len() as int) =~= j);
    lemma_trim_end_take(j, j.len() as int);
    assert(j.take(j.len() as int) =~= j);
    assert(trim(rest) == j);
}

} // verus!
