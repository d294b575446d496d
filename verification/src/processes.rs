//! Per-process data from `/proc/[pid]/`: the `stat` line, the command line,
//! the owner's uid in `status`, and the user names of `/etc/passwd`.
use std::collections::HashMap;
use std::time::Instant;

use vstd::prelude::*;

use crate::clock::now;
use crate::text::{
    char_is_digit, chars_of, copy_range, is_digit, is_ws, join_fields, last_index,
    lemma_join_fields, lemma_last_index_at, plain_field, lines, lines_of, parse_u32,
    parse_u32_of, parse_u64, parse_u64_of, rfind_char, split_of, split_on, string_of,
    strip_prefix, strip_prefix_of, strip_trailing, trim, trim_start, trimmed, views, words, words_of,
};

verus! {

broadcast use vstd::std_specs::hash::group_hash_axioms;

/// The cumulative CPU ticks of each process at the previous reading, when
/// that reading was taken, and the user names by uid.
#[derive(Debug, Clone)]
pub struct ProcessSnapshot {
    pub ticks: HashMap<u32, u64>,
    pub at: Instant,
    pub users: HashMap<u32, String>,
}

impl Default for ProcessSnapshot {
    fn default() -> (r: Self)
        ensures
            r.ticks@ == Map::<u32, u64>::empty(),
            r.users@ == Map::<u32, String>::empty(),
    {
        ProcessSnapshot { ticks: HashMap::new(), at: now(), users: HashMap::new() }
    }
}

// ───────────────────────────── /proc/[pid]/stat ─────────────────────────────

/// The fields of a `/proc/[pid]/stat` line that the process list uses.
#[derive(Debug, Clone, PartialEq)]
pub struct StatInfo {
    pub pid: u32,
    pub name: String,
    pub state: String,
    pub total_ticks: u64,
    pub rss_pages: u64,
}

/// The index of the first `a` directly followed by `b`.
pub open spec fn first_pair(s: Seq<char>, a: char, b: char) -> Option<int>
    decreases s.len(),
{
    if s.len() < 2 {
        None
    } else if s[0] == a && s[1] == b {
        Some(0)
    } else {
        match first_pair(s.drop_first(), a, b) {
            Some(i) => Some(i + 1),
            None => None,
        }
    }
}

proof fn lemma_first_pair_at(s: Seq<char>, a: char, b: char, i: int)
    requires
        0 <= i,
        forall|j: int| 0 <= j < i && j + 1 < s.len() ==> !(#[trigger] s[j] == a && s[j + 1] == b),
        (i + 1 < s.len() && s[i] == a && s[i + 1] == b) || i + 1 >= s.len(),
    ensures
        first_pair(s, a, b) == (if i + 1 < s.len() {
            Some(i)
        } else {
            None::<int>
        }),
    decreases s.len(),
{
    if s.len() >= 2 && i > 0 {
        assert forall|j: int| 0 <= j < i - 1 && j + 1 < s.drop_first().len() implies !(
        #[trigger] s.drop_first()[j] == a && s.drop_first()[j + 1] == b) by {
            assert(s.drop_first()[j] == s[j + 1] && s.drop_first()[j + 1] == s[j + 2]);
        }
        lemma_first_pair_at(s.drop_first(), a, b, i - 1);
    }
}

fn find_pair(s: &[char], a: char, b: char) -> (r: Option<usize>)
    ensures
        r matches Some(i) ==> first_pair(s@, a, b) == Some(i as int) && i + 1 < s@.len() && s@[i as int]
            == a && s@[i + 1] == b,
        r is None ==> first_pair(s@, a, b) is None,
{
    let mut i: usize = 0;
    while i < s.len() && i + 1 < s.len()
        invariant
            i <= s@.len(),
            forall|j: int| 0 <= j < i && j + 1 < s@.len() ==> !(#[trigger] s@[j] == a && s@[j + 1] == b),
        decreases s@.len() - i,
    {
        if s[i] == a && s[i + 1] == b {
            proof {
                lemma_first_pair_at(s@, a, b, i as int);
            }
            return Some(i);
        }
        i = i + 1;
    }
    proof {
        lemma_first_pair_at(s@, a, b, i as int);
    }
    None
}

/// What a `/proc/[pid]/stat` line holds.
pub struct StatModel {
    pub pid: u32,
    pub name: Seq<char>,
    pub state: Seq<char>,
    pub utime: u64,
    pub stime: u64,
    pub rss_pages: u64,
}

/// `pid (name) state ...`: the pid before the first ` (`, the name up to the
/// last `)`, then, after the one ASCII character that follows it, more than
/// 22 whitespace-separated fields of which the first is the state and the
/// 12th, 13th and 22nd are the user time, system time and resident pages.
pub open spec fn stat_line(s: Seq<char>) -> Option<StatModel> {
    match first_pair(s, ' ', '(') {
        None => None,
        Some(o) => match last_index(s, ')') {
            None => None,
            Some(c) => if c <= o {
                None
            } else {
                match parse_u32(trim(s.take(o))) {
                    None => None,
                    Some(pid) => if !(c + 1 < s.len() && (s[c + 1] as u32) < 128) {
                        None
                    } else {
                        let f = words(s.skip(c + 2));
                        if f.len() <= 21 {
                            None
                        } else {
                            match (parse_u64(f[11]), parse_u64(f[12]), parse_u64(f[21])) {
                                (Some(u), Some(st), Some(rss)) => Some(
                                    StatModel {
                                        pid,
                                        name: s.subrange(o + 2, c),
                                        state: f[0],
                                        utime: u,
                                        stime: st,
                                        rss_pages: rss,
                                    },
                                ),
                                _ => None,
                            }
                        }
                    },
                }
            },
        },
    }
}

/// Whether the user and system times of a parsable line add up without
/// overflow; where they do not, the addition of the tick counts overflows.
pub open spec fn stat_ticks_fit(s: Seq<char>) -> bool {
    stat_line(s) matches Some(m) ==> m.utime + m.stime <= u64::MAX
}

fn stat_fields(line: &[char]) -> (r: Option<(u32, Vec<char>, Vec<char>, u64, u64, u64)>)
    ensures
        r matches Some((pid, name, state, u, st, rss)) ==> stat_line(line@) == Some(
            StatModel { pid, name: name@, state: state@, utime: u, stime: st, rss_pages: rss },
        ),
        r is None ==> stat_line(line@) is None,
{
    let open = match find_pair(line, ' ', '(') {
        Some(o) => o,
        None => return None,
    };
    let close = match rfind_char(line, ')') {
        Some(c) => c,
        None => return None,
    };
    if close <= open {
        return None;
    }
    assert(close < line.len() && line@[close as int] == ')' && line@[open + 1] == '(');
    let head = copy_range(line, 0, open);
    assert(head@ =~= line@.take(open as int));
    let pid = match parse_u32_of(&trimmed(&head)) {
        Some(p) => p,
        None => return None,
    };
    if !(close + 1 < line.len() && (line[close + 1] as u32) < 128) {
        return None;
    }
    let name = copy_range(line, open + 2, close);
    let rest = copy_range(line, close + 2, line.len());
    assert(rest@ =~= line@.skip(close + 2));
    let fields = words_of(&rest);
    let ghost f = words(rest@);
    assert(views(fields@) == f);
    if fields.len() <= 21 {
        return None;
    }
    assert(f[0] == fields@[0]@ && f[11] == fields@[11]@ && f[12] == fields@[12]@ && f[21]
        == fields@[21]@);
    let utime = match parse_u64_of(&fields[11]) {
        Some(v) => v,
        None => return None,
    };
    let stime = match parse_u64_of(&fields[12]) {
        Some(v) => v,
        None => return None,
    };
    let rss = match parse_u64_of(&fields[21]) {
        Some(v) => v,
        None => return None,
    };
    let state = copy_range(&fields[0], 0, fields[0].len());
    assert(state@ =~= f[0]);
    Some((pid, name, state, utime, stime, rss))
}

/// `stat_ticks_fit`, as a value.
pub fn stat_line_ticks_fit(line: &str) -> (r: bool)
    ensures
        r == stat_ticks_fit(line@),
{
    let chars = chars_of(line);
    match stat_fields(&chars) {
        Some((_, _, _, u, st, _)) => u.checked_add(st).is_some(),
        None => true,
    }
}

/// Parse one `/proc/[pid]/stat` line; the total ticks are the user plus the
/// system time.
pub fn parse_stat_line(line: &str) -> (r: Option<StatInfo>)
    requires
        stat_ticks_fit(line@),
    ensures
        r matches Some(i) ==> stat_line(line@) matches Some(m) && i.pid == m.pid && i.name@
            == m.name && i.state@ == m.state && i.total_ticks == m.utime + m.stime && i.rss_pages
            == m.rss_pages,
        r is None ==> stat_line(line@) is None,
{
    let chars = chars_of(line);
    match stat_fields(&chars) {
        Some((pid, name, state, utime, stime, rss_pages)) => Some(
            StatInfo {
                pid,
                name: string_of(&name),
                state: string_of(&state),
                total_ticks: utime + stime,
                rss_pages,
            },
        ),
        None => None,
    }
}

// ───────────────────────────── /proc/[pid]/cmdline ─────────────────────────────

/// The characters that `String::from_utf8_lossy` makes of a byte string.
pub uninterp spec fn utf8_lossy(bytes: Seq<u8>) -> Seq<char>;

/// `String::from_utf8_lossy`: the text of the bytes, every invalid sequence
/// replaced by U+FFFD.  The contract names the result and states it for
/// valid UTF-8, which is decoded as it stands; what the replacement makes of
/// invalid bytes it leaves to the name.
#[verifier::external_body]
fn from_utf8_lossy(bytes: &[u8]) -> (r: Vec<char>)
    ensures
        r@ == utf8_lossy(bytes@),
        vstd::utf8::valid_utf8(bytes@) ==> r@ == vstd::utf8::decode_utf8(bytes@),
{
    String::from_utf8_lossy(bytes).chars().collect()
}

/// A NUL character read as a space.
pub open spec fn nul_to_space(c: char) -> char {
    if c == '\0' {
        ' '
    } else {
        c
    }
}

/// A decoded command line with every NUL made a space and the trailing
/// spaces removed.
pub open spec fn cleaned_cmdline(text: Seq<char>) -> Seq<char> {
    strip_trailing(text.map_values(|c: char| nul_to_space(c)), ' ')
}

/// The command line of a `cmdline` file: its text with every NUL made a
/// space and the trailing spaces removed.
pub open spec fn cmdline_text(bytes: Seq<u8>) -> Seq<char> {
    cleaned_cmdline(utf8_lossy(bytes))
}

fn clean_chars(text: &[char]) -> (r: Vec<char>)
    ensures
        r@ == cleaned_cmdline(text@),
{
    let ghost mapped = text@.map_values(|c: char| nul_to_space(c));
    let mut cmd: Vec<char> = Vec::new();
    let mut i: usize = 0;
    while i < text.len()
        invariant
            i <= text@.len(),
            mapped == text@.map_values(|c: char| nul_to_space(c)),
            cmd@ == mapped.take(i as int),
        decreases text@.len() - i,
    {
        let c = text[i];
        if c == '\0' {
            cmd.push(' ');
        } else {
            cmd.push(c);
        }
        i = i + 1;
        assert(cmd@ =~= mapped.take(i as int));
    }
    assert(mapped.take(mapped.len() as int) =~= mapped);
    let mut n: usize = cmd.len();
    while n > 0 && cmd[n - 1] == ' '
        invariant
            n <= cmd@.len(),
            cmd@ == mapped,
            strip_trailing(mapped, ' ') == strip_trailing(mapped.take(n as int), ' '),
        decreases n,
    {
        assert(mapped.take(n as int).drop_last() =~= mapped.take(n - 1));
        n = n - 1;
    }
    assert(n == 0 ==> mapped.take(n as int) =~= Seq::<char>::empty());
    copy_range(&cmd, 0, n)
}

/// Make one line of decoded `cmdline` text: every NUL becomes a space and
/// the trailing spaces go.
pub fn clean_cmdline(text: &str) -> (r: String)
    ensures
        r@ == cleaned_cmdline(text@),
{
    string_of(&clean_chars(&chars_of(text)))
}

fn cmdline_chars(bytes: &[u8]) -> (r: Vec<char>)
    ensures
        r@ == cmdline_text(bytes@),
        vstd::utf8::valid_utf8(bytes@) ==> utf8_lossy(bytes@) == vstd::utf8::decode_utf8(bytes@),
{
    let text = from_utf8_lossy(bytes);
    clean_chars(&text)
}

/// Turn the NUL-separated arguments of `/proc/[pid]/cmdline` into one line.
pub fn parse_cmdline_bytes(bytes: &[u8]) -> (r: String)
    ensures
        r@ == cmdline_text(bytes@),
        vstd::utf8::valid_utf8(bytes@) ==> r@ == cleaned_cmdline(vstd::utf8::decode_utf8(bytes@)),
{
    string_of(&cmdline_chars(bytes))
}

/// The command line shown for a process: the one in its `cmdline` file, or
/// `fallback_name` where the file could not be read or holds nothing once
/// cleaned.
pub fn choose_cmdline(cmdline: Option<&[u8]>, fallback_name: &str) -> (r: String)
    ensures
        r@ == (match cmdline {
            Some(b) => if cmdline_text(b@).len() == 0 {
                fallback_name@
            } else {
                cmdline_text(b@)
            },
            None => fallback_name@,
        }),
        cmdline matches Some(b) ==> (vstd::utf8::valid_utf8(b@) ==> cmdline_text(b@)
            == cleaned_cmdline(vstd::utf8::decode_utf8(b@))),
{
    match cmdline {
        Some(bytes) => {
            let cmd = cmdline_chars(bytes);
            if cmd.len() == 0 {
                string_of(&chars_of(fallback_name))
            } else {
                string_of(&cmd)
            }
        },
        None => string_of(&chars_of(fallback_name)),
    }
}


// ───────────────────────────── /proc/[pid]/status ─────────────────────────────

/// The uid in the first `Uid:` line: its first whitespace-separated field,
/// if that reads as a `u32`.
pub open spec fn uid_lines(ls: Seq<Seq<char>>) -> Option<u32>
    decreases ls.len(),
{
    if ls.len() == 0 {
        None
    } else {
        match strip_prefix(ls[0], "Uid:"@) {
            Some(rest) => {
                let w = words(rest);
                if w.len() == 0 {
                    None
                } else {
                    parse_u32(w[0])
                }
            },
            None => uid_lines(ls.drop_first()),
        }
    }
}

/// The real uid that a `/proc/[pid]/status` text records.
pub open spec fn status_uid(content: Seq<char>) -> Option<u32> {
    uid_lines(lines(content))
}

/// Read the real uid from the text of `/proc/[pid]/status`.
pub fn parse_uid(status: &str) -> (r: Option<u32>)
    ensures
        r == status_uid(status@),
{
    let chars = chars_of(status);
    let ls = lines_of(&chars);
    let ghost lv = lines(status@);
    let mut i: usize = 0;
    assert(lv.skip(0) =~= lv);
    while i < ls.len()
        invariant
            i <= ls@.len(),
            views(ls@) == lv,
            lv == lines(status@),
            uid_lines(lv) == uid_lines(lv.skip(i as int)),
        decreases ls@.len() - i,
    {
        let line = &ls[i];
        assert(lv.skip(i as int)[0] == line@);
        match strip_prefix_of(line, "Uid:") {
            Some(rest) => {
                let w = words_of(&rest);
                assert(views(w@) == words(rest@));
                if w.len() == 0 {
                    return None;
                }
                assert(words(rest@)[0] == w@[0]@);
                return parse_u32_of(&w[0]);
            },
            None => {},
        }
        assert(lv.skip(i as int).drop_first() =~= lv.skip(i + 1));
        i = i + 1;
    }
    None
}

// ───────────────────────────── /etc/passwd ─────────────────────────────

pub open spec fn passwd_lines(ls: Seq<Seq<char>>) -> Map<u32, Seq<char>>
    decreases ls.len(),
{
    if ls.len() == 0 {
        Map::empty()
    } else {
        let m = passwd_lines(ls.drop_last());
        let parts = split_on(ls.last(), ':');
        if parts.len() > 2 {
            match parse_u32(parts[2]) {
                Some(uid) => m.insert(uid, parts[0]),
                None => m,
            }
        } else {
            m
        }
    }
}

/// User names by uid in an `/etc/passwd` text: each line is split at its
/// colons, the first field is the name and the third the uid; lines whose
/// third field is missing or not a `u32` are passed over, and a later line
/// for a uid replaces an earlier one.
pub open spec fn passwd_users(content: Seq<char>) -> Map<u32, Seq<char>> {
    passwd_lines(lines(content))
}

/// Whether a table of strings holds the given texts.
pub open spec fn users_are(m: Map<u32, String>, model: Map<u32, Seq<char>>) -> bool {
    &&& m.dom() == model.dom()
    &&& forall|k: u32| #[trigger] m.contains_key(k) ==> m[k]@ == model[k]
}

/// Parse `/etc/passwd` content into user names by uid.
pub fn parse_passwd(content: &str) -> (r: HashMap<u32, String>)
    ensures
        users_are(r@, passwd_users(content@)),
{
    let chars = chars_of(content);
    let ls = lines_of(&chars);
    let ghost lv = lines(content@);
    let mut cache: HashMap<u32, String> = HashMap::new();
    let mut i: usize = 0;
    while i < ls.len()
        invariant
            i <= ls@.len(),
            views(ls@) == lv,
            lv == lines(content@),
            users_are(cache@, passwd_lines(lv.take(i as int))),
        decreases ls@.len() - i,
    {
        let line = &ls[i];
        assert(lv[i as int] == line@);
        assert(lv.take(i + 1).drop_last() =~= lv.take(i as int));
        let parts = split_of(line, ':');
        let ghost pv = split_on(line@, ':');
        assert(views(parts@) == pv);
        if parts.len() > 2 {
            assert(pv[0] == parts@[0]@ && pv[2] == parts@[2]@);
            match parse_u32_of(&parts[2]) {
                Some(uid) => {
                    let ghost prev = cache@;
                    let name = string_of(&parts[0]);
                    cache.insert(uid, name);
                    proof {
                        let model = passwd_lines(lv.take(i + 1));
                        assert(model == passwd_lines(lv.take(i as int)).insert(uid, pv[0]));
                        assert(cache@.dom() =~= model.dom());
                    }
                },
                None => {},
            }
        }
        i = i + 1;
    }
    assert(lv.take(lv.len() as int) =~= lv);
    cache
}

/// The text shown for a process whose owner is unknown.
pub open spec fn unknown_user() -> Seq<char> {
    "—"@
}

/// The user name for `uid` in `users`, or `—` where the uid is unknown.
pub fn lookup_user(uid: Option<u32>, users: &HashMap<u32, String>) -> (r: String)
    ensures
        r@ == (match uid {
            Some(id) => if users@.contains_key(id) {
                users@[id]@
            } else {
                unknown_user()
            },
            None => unknown_user(),
        }),
{
    match uid {
        Some(id) => match users.get(&id) {
            Some(name) => name.clone(),
            None => string_of(&chars_of("—")),
        },
        None => string_of(&chars_of("—")),
    }
}

// ───────────────────────────── Process list entries ─────────────────────────────

/// Whether a `/proc` entry name is made of ASCII digits only (so names a
/// process).
pub fn is_pid_name(name: &str) -> (r: bool)
    ensures
        r == (forall|i: int| 0 <= i < name@.len() ==> is_digit(#[trigger] name@[i])),
{
    let chars = chars_of(name);
    let mut i: usize = 0;
    while i < chars.len()
        invariant
            i <= chars@.len(),
            chars@ == name@,
            forall|j: int| 0 <= j < i ==> is_digit(#[trigger] name@[j]),
        decreases chars@.len() - i,
    {
        if !char_is_digit(chars[i]) {
            return false;
        }
        i = i + 1;
    }
    true
}

/// The page size that `sysconf(_SC_PAGESIZE)` reported, or 4096 where it
/// reported none.
pub fn page_size_from(raw: i64) -> (r: u64)
    ensures
        r == (if raw > 0 {
            raw as u64
        } else {
            4096
        }),
{
    if raw > 0 {
        raw as u64
    } else {
        4096
    }
}

/// One process of the list, without its CPU share.
#[derive(Debug, Clone)]
pub struct ProcessRecord {
    pub pid: u32,
    pub name: String,
    pub cmd: String,
    pub mem_bytes: u64,
    pub status: String,
    pub user: String,
}

/// The entry for a process whose `stat` line parsed as `stat`: the command
/// line from its `cmdline` file (or its name), its resident memory in bytes
/// (saturating), its state, and its owner from the uid of its `status` file.
pub fn process_record(
    stat: &StatInfo,
    cmdline: Option<&[u8]>,
    status_text: Option<&str>,
    users: &HashMap<u32, String>,
    page_size: u64,
) -> (r: ProcessRecord)
    ensures
        r.pid == stat.pid,
        r.name@ == stat.name@,
        r.cmd@ == (match cmdline {
            Some(b) => if cmdline_text(b@).len() == 0 {
                stat.name@
            } else {
                cmdline_text(b@)
            },
            None => stat.name@,
        }),
        cmdline matches Some(b) ==> (vstd::utf8::valid_utf8(b@) ==> r.cmd@ == (if cleaned_cmdline(
            vstd::utf8::decode_utf8(b@),
        ).len() == 0 {
            stat.name@
        } else {
            cleaned_cmdline(vstd::utf8::decode_utf8(b@))
        })),
        r.mem_bytes == (if stat.rss_pages * page_size <= u64::MAX {
            stat.rss_pages * page_size
        } else {
            u64::MAX as int
        }),
        r.status@ == stat.state@,
        r.user@ == (match (match status_text {
            Some(t) => status_uid(t@),
            None => None,
        }) {
            Some(id) => if users@.contains_key(id) {
                users@[id]@
            } else {
                unknown_user()
            },
            None => unknown_user(),
        }),
{
    let name_chars = chars_of(stat.name.as_str());
    let uid = match status_text {
        Some(t) => parse_uid(t),
        None => None,
    };
    let mem_bytes = match stat.rss_pages.checked_mul(page_size) {
        Some(v) => v,
        None => u64::MAX,
    };
    ProcessRecord {
        pid: stat.pid,
        name: string_of(&name_chars),
        cmd: choose_cmdline(cmdline, stat.name.as_str()),
        mem_bytes,
        status: string_of(&chars_of(stat.state.as_str())),
        user: lookup_user(uid, users),
    }
}

/// The ticks a process used since the previous reading, 0 where the count
/// went down; `None` where there was no previous reading.
pub open spec fn tick_growth(prev_ticks: Option<u64>, curr_ticks: u64) -> Option<u64> {
    match prev_ticks {
        Some(p) => Some(
            if curr_ticks >= p {
                (curr_ticks - p) as u64
            } else {
                0
            },
        ),
        None => None,
    }
}

/// `tick_growth`, as a value.
pub fn tick_delta(prev_ticks: Option<u64>, curr_ticks: u64) -> (r: Option<u64>)
    ensures
        r == tick_growth(prev_ticks, curr_ticks),
{
    match prev_ticks {
        Some(p) => Some(curr_ticks.saturating_sub(p)),
        None => None,
    }
}

/// Whether the user names have yet to be loaded: they are loaded once, on
/// the first poll that finds none.
pub fn needs_user_table(s: &ProcessSnapshot) -> (r: bool)
    ensures
        r == s.users@.is_empty(),
{
    s.users.is_empty()
}

/// The state kept after one poll of the process list: the tick counts of
/// this poll (none where the process directory could not be listed), its
/// time, and the user names unchanged.
pub fn advance_processes(s: &mut ProcessSnapshot, ticks: Option<HashMap<u32, u64>>, at: Instant)
    ensures
        final(s).ticks@ == (match ticks {
            Some(t) => t@,
            None => Map::<u32, u64>::empty(),
        }),
        final(s).at == at,
        final(s).users@ == old(s).users@,
{
    match ticks {
        Some(t) => {
            s.ticks = t;
        },
        None => {
            s.ticks.clear();
        },
    }
    s.at = at;
}

/// A cleaned command line holds no NUL and does not end in a space.
pub proof fn lemma_cmdline_clean(bytes: Seq<u8>)
    ensures
        !cmdline_text(bytes).contains('\0'),
        cmdline_text(bytes).len() > 0 ==> cmdline_text(bytes).last() != ' ',
{
    let mapped = utf8_lossy(bytes).map_values(|c: char| nul_to_space(c));
    lemma_strip_trailing_prefix(mapped, ' ');
    if cmdline_text(bytes).contains('\0') {
        let k = choose|k: int| 0 <= k < cmdline_text(bytes).len() && cmdline_text(bytes)[k] == '\0';
        assert(mapped[k] == nul_to_space(utf8_lossy(bytes)[k]));
    }
}

proof fn lemma_strip_trailing_prefix(s: Seq<char>, c: char)
    ensures
        strip_trailing(s, c).len() <= s.len(),
        s.take(strip_trailing(s, c).len() as int) == strip_trailing(s, c),
        strip_trailing(s, c).len() > 0 ==> strip_trailing(s, c).last() != c,
    decreases s.len(),
{
    if s.len() > 0 && s.last() == c {
        lemma_strip_trailing_prefix(s.drop_last(), c);
        assert(s.drop_last().take(strip_trailing(s, c).len() as int) =~= s.take(
            strip_trailing(s, c).len() as int,
        ));
    } else {
        assert(s.take(s.len() as int) =~= s);
    }
}

/// A process seen for the first time has no tick count to compare with; a
/// process seen before has used the ticks that, added to its earlier count,
/// give its present one, unless its count went down.
pub proof fn lemma_first_sample_has_no_delta(prev: Option<u64>, curr: u64)
    ensures
        prev is None ==> tick_growth(prev, curr) is None,
        prev matches Some(p) ==> tick_growth(prev, curr) matches Some(d) && (p <= curr ==> p + d
            == curr) && (curr < p ==> d == 0),
{
}

// ───────────────────────────── Laws of the stat line ─────────────────────────────

/// A stat line written as `pid (name) fields...` reads back: the decimal
/// pid, the name whatever it holds (spaces and parentheses too, as it ends
/// at the last `)`), the state, and the user time, system time and resident
/// pages of 22 or more fields, each without whitespace or `)`, joined by
/// single spaces.
pub proof fn lemma_stat_line_round_trip(digits: Seq<char>, name: Seq<char>, fs: Seq<Seq<char>>)
    requires
        digits.len() > 0,
        forall|i: int| 0 <= i < digits.len() ==> is_digit(#[trigger] digits[i]),
        parse_u32(digits) is Some,
        fs.len() >= 22,
        forall|i: int| 0 <= i < fs.len() ==> plain_field(#[trigger] fs[i], ')'),
        parse_u64(fs[11]) is Some,
        parse_u64(fs[12]) is Some,
        parse_u64(fs[21]) is Some,
    ensures
        stat_line(digits + " ("@ + name + ") "@ + join_fields(fs)) == Some(
            StatModel {
                pid: parse_u32(digits)->0,
                name,
                state: fs[0],
                utime: parse_u64(fs[11])->0,
                stime: parse_u64(fs[12])->0,
                rss_pages: parse_u64(fs[21])->0,
            },
        ),
{
    reveal_strlit(" (");
    reveal_strlit(") ");
    let j = join_fields(fs);
    lemma_join_fields(fs, ')');
    let s = digits + " ("@ + name + ") "@ + j;
    let o = digits.len() as int;
    let c = o + 2 + name.len();
    assert(s[o] == ' ' && s[o + 1] == '(');
    assert forall|k: int| 0 <= k < o && k + 1 < s.len() implies !(#[trigger] s[k] == ' ' && s[k + 1]
        == '(') by {
        assert(s[k] == digits[k]);
    }
    lemma_first_pair_at(s, ' ', '(', o);
    assert(s[c] == ')');
    assert forall|k: int| c < k < s.len() implies s[k] != ')' by {
        if k > c + 1 {
            assert(s[k] == j[k - c - 2]);
        }
    }
    lemma_last_index_at(s, ')', c);
    assert(s.take(o) =~= digits);
    assert(!is_ws(digits[0]) && !is_ws(digits.last()));
    assert(trim_start(digits) == digits);
    assert(trim(digits) == digits);
    assert(s.skip(c + 2) =~= j);
    assert(s.subrange(o + 2, c) =~= name);
}

proof fn lemma_last_index_found(s: Seq<char>, c: char)
    ensures
        last_index(s, c) matches Some(k) ==> 0 <= k < s.len() && s[k] == c,
    decreases s.len(),
{
    if s.len() > 0 && s.last() != c {
        lemma_last_index_found(s.drop_last(), c);
    }
}

/// A stat line is refused, with no panic, where it has no ` (`, no `)`
/// after its first ` (`, text before the first ` (` that is not a `u32`,
/// fewer than 22 fields after the character that follows its last `)`, or a
/// 12th, 13th or 22nd such field that is not a `u64`.
pub proof fn lemma_stat_line_rejects(s: Seq<char>)
    ensures
        first_pair(s, ' ', '(') is None ==> stat_line(s) is None,
        first_pair(s, ' ', '(') matches Some(o) && (forall|k: int| o < k < s.len() ==> s[k] != ')')
            ==> stat_line(s) is None,
        first_pair(s, ' ', '(') matches Some(o) && parse_u32(trim(s.take(o))) is None
            ==> stat_line(s) is None,
        last_index(s, ')') matches Some(c) && words(s.skip(c + 2)).len() < 22 ==> stat_line(s) is None,
        last_index(s, ')') matches Some(c) && words(s.skip(c + 2)).len() >= 22 && (parse_u64(
            words(s.skip(c + 2))[11],
        ) is None || parse_u64(words(s.skip(c + 2))[12]) is None || parse_u64(
            words(s.skip(c + 2))[21],
        ) is None) ==> stat_line(s) is None,
{
    lemma_last_index_found(s, ')');
}

} // verus!
