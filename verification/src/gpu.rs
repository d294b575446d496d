//! AMD GPU readings from the DRM sysfs tree (`/sys/class/drm/card*/device`).
use vstd::prelude::*;

use crate::text::{
    char_is_digit, chars_eq, chars_of, copy_range, is_ascii, is_digit, lemma_lines_ascii,
    lemma_trim_ascii, lines, lines_of, parse_u64, parse_u64_of, string_of, trim, trimmed, views,
};

verus! {

// ───────────────────────────── Card detection ─────────────────────────────

/// Whether the text of a `device/vendor` file names AMD (PCI vendor 0x1002).
pub open spec fn amd_vendor(content: Seq<char>) -> bool {
    trim(content) == "0x1002"@
}

pub fn is_amd_vendor(content: &str) -> (r: bool)
    ensures
        r == amd_vendor(content@),
{
    let t = trimmed(&chars_of(content));
    let expected = chars_of("0x1002");
    chars_eq(&t, &expected)
}

/// Whether a card's vendor file was read and names AMD.
pub open spec fn amd_entry(v: Option<String>) -> bool {
    match v {
        Some(s) => amd_vendor(s@),
        None => false,
    }
}

/// The index of the first card whose vendor file could be read and names
/// AMD; `vendors[n]` is the content of `card{n}/device/vendor`, if readable.
pub fn find_amd_card(vendors: &Vec<Option<String>>) -> (r: Option<usize>)
    ensures
        r matches Some(n) ==> n < vendors@.len() && amd_entry(vendors@[n as int]),
        forall|j: int|
            0 <= j < (match r {
                Some(n) => n as int,
                None => vendors@.len() as int,
            }) ==> !amd_entry(#[trigger] vendors@[j]),
{
    let mut i: usize = 0;
    while i < vendors.len()
        invariant
            i <= vendors@.len(),
            forall|j: int| 0 <= j < i ==> !amd_entry(#[trigger] vendors@[j]),
        decreases vendors@.len() - i,
    {
        match &vendors[i] {
            Some(v) => {
                if is_amd_vendor(v.as_str()) {
                    return Some(i);
                }
            },
            None => {},
        }
        i = i + 1;
    }
    None
}

/// The number in a sysfs attribute file: its trimmed text read as a `u64`.
pub open spec fn sysfs_u64(content: Option<Seq<char>>) -> Option<u64> {
    match content {
        Some(c) => parse_u64(trim(c)),
        None => None,
    }
}

/// `sysfs_u64` of a file's content, if the file could be read.
pub fn read_sysfs_u64(content: Option<&str>) -> (r: Option<u64>)
    ensures
        r == sysfs_u64(
            match content {
                Some(c) => Some(c@),
                None => None,
            },
        ),
{
    match content {
        Some(c) => parse_u64_of(&trimmed(&chars_of(c))),
        None => None,
    }
}

// ───────────────────────────── pp_dpm clock tables ─────────────────────────────

/// The characters that `str::to_lowercase` makes of a text.
pub uninterp spec fn lowercase(s: Seq<char>) -> Seq<char>;

/// The ASCII lowercase form of a character: `A`–`Z` become `a`–`z`, every
/// other character stays.
pub open spec fn ascii_lower(c: char) -> char {
    if 'A' <= c && c <= 'Z' {
        ((c as u32) + 32) as char
    } else {
        c
    }
}

/// `str::to_lowercase`: the lowercase mapping of each character, by the
/// Unicode tables of the standard library.  The contract names the result
/// and states it for all-ASCII text, where the mapping is ASCII lowercasing
/// character by character; for other text it says no more than the name.
#[verifier::external_body]
fn to_lowercase_chars(s: &[char]) -> (r: Vec<char>)
    ensures
        r@ == lowercase(s@),
        (forall|i: int| 0 <= i < s@.len() ==> (#[trigger] s@[i] as u32) < 128) ==> r@
            == s@.map_values(|c: char| ascii_lower(c)),
{
    let text: String = s.iter().collect();
    text.to_lowercase().chars().collect()
}

/// `char::len_utf8`.
pub open spec fn utf8_width(c: char) -> nat {
    if (c as u32) < 0x80 {
        1
    } else if (c as u32) < 0x800 {
        2
    } else if (c as u32) < 0x10000 {
        3
    } else {
        4
    }
}

/// The length in bytes of the UTF-8 encoding of a text.
pub open spec fn byte_len(s: Seq<char>) -> nat
    decreases s.len(),
{
    if s.len() == 0 {
        0
    } else {
        byte_len(s.drop_last()) + utf8_width(s.last())
    }
}

fn char_width(c: char) -> (r: u128)
    ensures
        r == utf8_width(c),
{
    if (c as u32) < 0x80 {
        1
    } else if (c as u32) < 0x800 {
        2
    } else if (c as u32) < 0x10000 {
        3
    } else {
        4
    }
}

/// Whether `p` occurs in `s` at index `i`.
pub open spec fn occurs_at(s: Seq<char>, p: Seq<char>, i: int) -> bool {
    0 <= i && i + p.len() <= s.len() && s.subrange(i, i + p.len()) == p
}

/// The index of the first occurrence of `p` in `s`.
pub open spec fn find_seq(s: Seq<char>, p: Seq<char>) -> Option<int>
    decreases s.len(),
{
    if s.len() < p.len() {
        None
    } else if s.take(p.len() as int) == p {
        Some(0)
    } else if s.len() == 0 {
        None
    } else {
        match find_seq(s.drop_first(), p) {
            Some(i) => Some(i + 1),
            None => None,
        }
    }
}

proof fn lemma_find_seq_at(s: Seq<char>, p: Seq<char>, i: int)
    requires
        0 <= i,
        forall|j: int| 0 <= j < i ==> !occurs_at(s, p, j),
        occurs_at(s, p, i) || i + p.len() > s.len(),
    ensures
        find_seq(s, p) == (if i + p.len() <= s.len() {
            Some(i)
        } else {
            None::<int>
        }),
    decreases s.len(),
{
    if s.len() >= p.len() {
        if i == 0 {
            assert(s.subrange(0, p.len() as int) =~= s.take(p.len() as int));
        } else {
            assert(!occurs_at(s, p, 0));
            if s.len() == 0 {
                assert(s.subrange(0, 0) =~= p);
                assert(false);
            }
            assert(s.subrange(0, p.len() as int) =~= s.take(p.len() as int));
            assert forall|j: int| 0 <= j < i - 1 implies !occurs_at(s.drop_first(), p, j) by {
                assert(!occurs_at(s, p, j + 1));
                if occurs_at(s.drop_first(), p, j) {
                    let a = s.subrange(j + 1, j + 1 + p.len());
                    let b = s.drop_first().subrange(j, j + p.len());
                    assert forall|k: int| 0 <= k < p.len() implies a[k] == b[k] by {
                        assert(a[k] == s[j + 1 + k]);
                        assert(b[k] == s.drop_first()[j + k]);
                    }
                    assert(a =~= b);
                }
            }
            if i + p.len() <= s.len() {
                assert(s.drop_first().subrange(i - 1, i - 1 + p.len()) =~= s.subrange(
                    i,
                    i + p.len(),
                ));
            }
            lemma_find_seq_at(s.drop_first(), p, i - 1);
        }
    }
}

fn find_seq_of(s: &[char], p: &[char]) -> (r: Option<usize>)
    ensures
        r matches Some(i) ==> find_seq(s@, p@) == Some(i as int) && i + p@.len() <= s@.len(),
        r is None ==> find_seq(s@, p@) is None,
{
    if p.len() > s.len() {
        proof {
            lemma_find_seq_at(s@, p@, 0);
        }
        return None;
    }
    if p.len() == 0 {
        proof {
            assert(s@.subrange(0, 0) =~= p@);
            lemma_find_seq_at(s@, p@, 0);
        }
        return Some(0);
    }
    let mut i: usize = 0;
    let last = s.len() - p.len();
    while i <= last
        invariant
            0 < p@.len() <= s@.len(),
            last == s@.len() - p@.len(),
            i <= last + 1,
            forall|j: int| 0 <= j < i ==> !occurs_at(s@, p@, j),
        decreases last + 1 - i,
    {
        assert(i + p@.len() <= s@.len());
        assert(s@.len() == s.len());
        let piece = copy_range(s, i, i + p.len());
        if chars_eq(&piece, p) {
            proof {
                lemma_find_seq_at(s@, p@, i as int);
            }
            return Some(i);
        }
        i = i + 1;
    }
    proof {
        lemma_find_seq_at(s@, p@, i as int);
    }
    None
}

/// The number of characters of `s` whose encoding takes `pos` bytes, if
/// `pos` falls between two characters.
pub open spec fn char_count_at_byte(s: Seq<char>, pos: nat) -> Option<int> {
    if exists|k: int| 0 <= k <= s.len() && byte_len(s.take(k)) == pos {
        Some(choose|k: int| 0 <= k <= s.len() && byte_len(s.take(k)) == pos)
    } else {
        None
    }
}

proof fn lemma_byte_len_grows(s: Seq<char>, k1: int, k2: int)
    requires
        0 <= k1 < k2 <= s.len(),
    ensures
        byte_len(s.take(k1)) < byte_len(s.take(k2)),
    decreases k2 - k1,
{
    assert(s.take(k2).drop_last() =~= s.take(k2 - 1));
    if k1 < k2 - 1 {
        lemma_byte_len_grows(s, k1, k2 - 1);
    }
}

/// The ASCII digits at the end of `s`.
pub open spec fn trailing_digits(s: Seq<char>) -> Seq<char>
    decreases s.len(),
{
    if s.len() > 0 && is_digit(s.last()) {
        trailing_digits(s.drop_last()).push(s.last())
    } else {
        Seq::empty()
    }
}

proof fn lemma_trailing_digits_skip(s: Seq<char>, j: int)
    requires
        0 <= j <= s.len(),
        forall|i: int| j <= i < s.len() ==> is_digit(s[i]),
        j == 0 || !is_digit(s[j - 1]),
    ensures
        trailing_digits(s) == s.skip(j),
    decreases s.len() - j,
{
    if j == s.len() {
        assert(s.skip(j) =~= Seq::<char>::empty());
    } else {
        lemma_trailing_digits_skip(s.drop_last(), j);
        assert(s.drop_last().skip(j).push(s.last()) =~= s.skip(j));
    }
}

/// What one line of a `pp_dpm_*` table decides.
pub enum DpmLine {
    /// The line is passed over.
    Skip,
    /// The search for `mhz` gives a byte offset that does not fall between
    /// two characters of the line, where slicing the line fails.
    Unsliceable,
    /// The scan ends with this result.
    Done(Option<u64>),
}

/// Whether a table line is the marked one: it ends with `*`.
pub open spec fn marked_line(line: Seq<char>) -> bool {
    line.len() > 0 && line.last() == '*'
}

/// What a line of a `pp_dpm_*` table decides, given its lowercase form
/// `lower`: a line that ends with `*` is read at the first `mhz` of `lower`,
/// taking the ASCII digits of the line that directly precede that byte
/// offset.
pub open spec fn dpm_line_with(line: Seq<char>, lower: Seq<char>) -> DpmLine {
    if !marked_line(line) {
        DpmLine::Skip
    } else {
        match find_seq(lower, "mhz"@) {
            None => DpmLine::Skip,
            Some(q) => match char_count_at_byte(line, byte_len(lower.take(q))) {
                None => DpmLine::Unsliceable,
                Some(k) => {
                    let d = trailing_digits(line.take(k));
                    if d.len() == 0 {
                        DpmLine::Skip
                    } else {
                        DpmLine::Done(parse_u64(d))
                    }
                },
            },
        }
    }
}

/// What a line of a `pp_dpm_*` table decides.
pub open spec fn dpm_line(line: Seq<char>) -> DpmLine {
    dpm_line_with(line, lowercase(line))
}

/// The result of scanning the lines in order: the clock of the first line
/// that decides one, `None` where no line does; `None` for the whole where
/// a line is reached whose slicing fails.
pub open spec fn dpm_lines(ls: Seq<Seq<char>>) -> Option<Option<u64>>
    decreases ls.len(),
{
    if ls.len() == 0 {
        Some(None)
    } else {
        match dpm_line(ls[0]) {
            DpmLine::Skip => dpm_lines(ls.drop_first()),
            DpmLine::Unsliceable => None,
            DpmLine::Done(r) => Some(r),
        }
    }
}

/// What reading a `pp_dpm_sclk` / `pp_dpm_mclk` text yields.
pub open spec fn pp_dpm(content: Seq<char>) -> Option<Option<u64>> {
    dpm_lines(lines(content))
}

/// What a line of a clock table decides when its lowercase form is its
/// ASCII lowercase form, as it is for ASCII text.
pub open spec fn dpm_line_ascii(line: Seq<char>) -> DpmLine {
    dpm_line_with(line, line.map_values(|c: char| ascii_lower(c)))
}

/// `dpm_lines`, each line read by `dpm_line_ascii`.
pub open spec fn dpm_lines_ascii(ls: Seq<Seq<char>>) -> Option<Option<u64>>
    decreases ls.len(),
{
    if ls.len() == 0 {
        Some(None)
    } else {
        match dpm_line_ascii(ls[0]) {
            DpmLine::Skip => dpm_lines_ascii(ls.drop_first()),
            DpmLine::Unsliceable => None,
            DpmLine::Done(r) => Some(r),
        }
    }
}

/// What reading an ASCII clock table yields: every line lowercased by
/// `ascii_lower`.
pub open spec fn pp_dpm_ascii(content: Seq<char>) -> Option<Option<u64>> {
    dpm_lines_ascii(lines(content))
}

proof fn lemma_byte_len_ascii(s: Seq<char>)
    requires
        is_ascii(s),
    ensures
        byte_len(s) == s.len(),
    decreases s.len(),
{
    if s.len() > 0 {
        let d = s.drop_last();
        assert forall|i: int| 0 <= i < d.len() implies (#[trigger] d[i] as u32) < 128 by {
            assert(d[i] == s[i]);
        }
        lemma_byte_len_ascii(d);
        assert((s[s.len() - 1] as u32) < 128);
    }
}

proof fn lemma_find_seq_bound(s: Seq<char>, p: Seq<char>)
    ensures
        find_seq(s, p) matches Some(q) ==> 0 <= q && q + p.len() <= s.len(),
    decreases s.len(),
{
    if s.len() >= p.len() && s.take(p.len() as int) != p && s.len() > 0 {
        lemma_find_seq_bound(s.drop_first(), p);
    }
}

proof fn lemma_ascii_take(s: Seq<char>, q: int)
    requires
        is_ascii(s),
        0 <= q <= s.len(),
    ensures
        is_ascii(s.take(q)),
{
    assert forall|i: int| 0 <= i < s.take(q).len() implies (#[trigger] s.take(q)[i] as u32) < 128 by {
        assert(s.take(q)[i] == s[i]);
    }
}

/// An ASCII line of a clock table, read with its ASCII lowercase form, never
/// falls on a byte offset inside a character: lowercasing keeps every
/// character one byte wide.
pub proof fn lemma_ascii_line_sliceable(line: Seq<char>)
    requires
        is_ascii(line),
    ensures
        !(dpm_line_with(line, line.map_values(|c: char| ascii_lower(c))) is Unsliceable),
{
    let lower = line.map_values(|c: char| ascii_lower(c));
    assert forall|i: int| 0 <= i < lower.len() implies (#[trigger] lower[i] as u32) < 128 by {
        assert(lower[i] == ascii_lower(line[i]));
        assert((line[i] as u32) < 128);
    }
    lemma_find_seq_bound(lower, "mhz"@);
    match find_seq(lower, "mhz"@) {
        Some(q) => {
            lemma_ascii_take(lower, q);
            lemma_byte_len_ascii(lower.take(q));
            lemma_ascii_take(line, q);
            lemma_byte_len_ascii(line.take(q));
            assert(0 <= q <= line.len() && byte_len(line.take(q)) == byte_len(lower.take(q)));
        },
        None => {},
    }
}

fn scan_dpm_line(line: &[char]) -> (r: DpmLine)
    ensures
        r == dpm_line(line@),
        is_ascii(line@) ==> !(r is Unsliceable),
        is_ascii(line@) ==> r == dpm_line_ascii(line@),
{
    if !(line.len() > 0 && line[line.len() - 1] == '*') {
        return DpmLine::Skip;
    }
    let lower = to_lowercase_chars(line);
    proof {
        if is_ascii(line@) {
            lemma_ascii_line_sliceable(line@);
        }
    }
    read_dpm_line(line, &lower)
}

/// Read one line of a `pp_dpm_*` table whose lowercase form is `lower`.
pub fn read_dpm_line(line: &[char], lower: &[char]) -> (r: DpmLine)
    ensures
        r == dpm_line_with(line@, lower@),
{
    if !(line.len() > 0 && line[line.len() - 1] == '*') {
        return DpmLine::Skip;
    }
    let pattern = chars_of("mhz");
    let q = match find_seq_of(&lower, &pattern) {
        Some(q) => q,
        None => return DpmLine::Skip,
    };
    // The byte offset of the match in the lowercase text.
    let mut pos: u128 = 0;
    let mut i: usize = 0;
    while i < q
        invariant
            q <= lower@.len(),
            i <= q,
            pos == byte_len(lower@.take(i as int)),
            pos <= 4 * i,
        decreases q - i,
    {
        assert(lower@.take(i + 1).drop_last() =~= lower@.take(i as int));
        pos = pos + char_width(lower[i]);
        i = i + 1;
    }
    assert(pos == byte_len(lower@.take(q as int)));
    // The number of characters of the line that take `pos` bytes.
    let mut k: usize = 0;
    let mut acc: u128 = 0;
    while k < line.len() && acc < pos
        invariant
            k <= line@.len(),
            acc == byte_len(line@.take(k as int)),
            acc <= 4 * k,
            forall|j: int| 0 <= j < k ==> byte_len(line@.take(j)) < pos,
        decreases line@.len() - k,
    {
        assert(line@.take(k + 1).drop_last() =~= line@.take(k as int));
        acc = acc + char_width(line[k]);
        k = k + 1;
    }
    if acc != pos {
        proof {
            assert forall|j: int| 0 <= j <= line@.len() implies byte_len(line@.take(j)) != pos by {
                if j < k {
                } else if j == k {
                } else {
                    lemma_byte_len_grows(line@, k as int, j);
                }
            }
        }
        return DpmLine::Unsliceable;
    }
    proof {
        assert forall|j: int| 0 <= j <= line@.len() && byte_len(line@.take(j)) == pos implies j
            == k by {
            if j > k {
                lemma_byte_len_grows(line@, k as int, j);
            } else if j < k {
            }
        }
        let c = choose|j: int| 0 <= j <= line@.len() && byte_len(line@.take(j)) == pos;
        assert(c == k);
    }
    // The digits directly before that position.
    let mut j: usize = k;
    while j > 0 && char_is_digit(line[j - 1])
        invariant
            j <= k <= line@.len(),
            forall|i: int| j <= i < k ==> is_digit(line@[i]),
        decreases j,
    {
        j = j - 1;
    }
    proof {
        let before = line@.take(k as int);
        assert forall|i: int| j <= i < before.len() implies is_digit(before[i]) by {}
        lemma_trailing_digits_skip(before, j as int);
        assert(before.skip(j as int) =~= line@.subrange(j as int, k as int));
    }
    if j == k {
        return DpmLine::Skip;
    }
    let digits = copy_range(line, j, k);
    DpmLine::Done(parse_u64_of(&digits))
}

fn scan_pp_dpm(content: &str) -> (r: Option<Option<u64>>)
    ensures
        r == pp_dpm(content@),
        is_ascii(content@) ==> r is Some,
        is_ascii(content@) ==> r == pp_dpm_ascii(content@),
{
    proof {
        if is_ascii(content@) {
            lemma_lines_ascii(content@);
        }
    }
    let chars = chars_of(content);
    let ls = lines_of(&chars);
    let ghost lv = lines(content@);
    let mut i: usize = 0;
    assert(lv.skip(0) =~= lv);
    while i < ls.len()
        invariant
            i <= ls@.len(),
            views(ls@) == lv,
            lv == lines(content@),
            dpm_lines(lv) == dpm_lines(lv.skip(i as int)),
            is_ascii(content@) ==> forall|k: int| 0 <= k < lv.len() ==> is_ascii(#[trigger] lv[k]),
            is_ascii(content@) ==> dpm_lines_ascii(lv) == dpm_lines_ascii(lv.skip(i as int)),
        decreases ls@.len() - i,
    {
        assert(lv.skip(i as int)[0] == ls@[i as int]@);
        match scan_dpm_line(&ls[i]) {
            DpmLine::Skip => {},
            DpmLine::Unsliceable => return None,
            DpmLine::Done(r) => return Some(r),
        }
        assert(lv.skip(i as int).drop_first() =~= lv.skip(i + 1));
        i = i + 1;
    }
    Some(None)
}

/// Whether reading the clock table `content` reaches no line whose slicing
/// fails; an ASCII table always passes.
pub fn pp_dpm_sliceable(content: &str) -> (r: bool)
    ensures
        r == pp_dpm(content@) is Some,
        is_ascii(content@) ==> r,
        is_ascii(content@) ==> pp_dpm(content@) == pp_dpm_ascii(content@),
{
    scan_pp_dpm(content).is_some()
}

/// Parse a `pp_dpm_sclk` / `pp_dpm_mclk` file and return the MHz value on
/// the line that ends with `*`.
pub fn parse_pp_dpm(content: &str) -> (r: Option<u64>)
    requires
        pp_dpm(content@) is Some,
    ensures
        pp_dpm(content@) == Some(r),
        is_ascii(content@) ==> pp_dpm_ascii(content@) == Some(r),
{
    match scan_pp_dpm(content) {
        Some(r) => r,
        None => None,
    }
}


// ───────────────────────────── Readings ─────────────────────────────

/// The contents of the sysfs files of one card, each `None` where the file
/// could not be read (the hwmon files also where the card has no hwmon
/// directory).
pub struct GpuSysfs {
    pub gpu_busy_percent: Option<String>,
    pub mem_info_vram_total: Option<String>,
    pub mem_info_vram_used: Option<String>,
    pub temp1_input: Option<String>,
    pub power1_average: Option<String>,
    pub pwm1: Option<String>,
    pub pp_dpm_sclk: Option<String>,
    pub pp_dpm_mclk: Option<String>,
    pub product_name: Option<String>,
    pub model: Option<String>,
}

/// The integer readings of a card.  Temperature (millidegrees), power
/// (microwatts) and fan PWM (0–255) are kept raw, `None` where unreadable.
pub struct GpuReadings {
    pub name: Option<String>,
    pub vendor: String,
    pub busy_percent: u64,
    pub memory_used_mb: u64,
    pub memory_total_mb: u64,
    pub memory_free_mb: u64,
    pub temp_millidegrees: Option<u64>,
    pub power_microwatts: Option<u64>,
    pub fan_pwm: Option<u64>,
    pub core_clock_mhz: u64,
    pub memory_clock_mhz: u64,
}

pub open spec fn content_view(c: Option<String>) -> Option<Seq<char>> {
    match c {
        Some(s) => Some(s@),
        None => None,
    }
}

/// A number read from a file, 0 where it could not be read.
pub open spec fn number_or_zero(c: Option<String>) -> u64 {
    match sysfs_u64(content_view(c)) {
        Some(v) => v,
        None => 0,
    }
}

/// The clock of a `pp_dpm` file: 0 where it is unreadable or names none;
/// `None` where reading its trimmed text fails.
pub open spec fn clock_reading(c: Option<String>) -> Option<u64> {
    match c {
        None => Some(0),
        Some(t) => match pp_dpm(trim(t@)) {
            None => None,
            Some(r) => Some(
                match r {
                    Some(v) => v,
                    None => 0,
                },
            ),
        },
    }
}

/// `clock_reading` of an ASCII file: its table read by `pp_dpm_ascii`.
pub open spec fn clock_reading_ascii(c: Option<String>) -> Option<u64> {
    match c {
        None => Some(0),
        Some(t) => match pp_dpm_ascii(trim(t@)) {
            None => None,
            Some(r) => Some(
                match r {
                    Some(v) => v,
                    None => 0,
                },
            ),
        },
    }
}

/// Whether a file could not be read or holds ASCII text only.
pub open spec fn ascii_file(c: Option<String>) -> bool {
    match c {
        Some(t) => is_ascii(t@),
        None => true,
    }
}

fn clock_of(c: &Option<String>) -> (r: Option<u64>)
    ensures
        r == clock_reading(*c),
        ascii_file(*c) ==> r is Some,
        ascii_file(*c) ==> r == clock_reading_ascii(*c),
{
    match c {
        None => Some(0),
        Some(t) => {
            let text = string_of(&trimmed(&chars_of(t.as_str())));
            proof {
                if is_ascii(t@) {
                    lemma_trim_ascii(t@);
                }
            }
            if !pp_dpm_sliceable(text.as_str()) {
                return None;
            }
            match parse_pp_dpm(text.as_str()) {
                Some(v) => Some(v),
                None => Some(0),
            }
        },
    }
}

fn number_of(c: &Option<String>) -> (r: Option<u64>)
    ensures
        r == sysfs_u64(content_view(*c)),
{
    match c {
        Some(t) => read_sysfs_u64(Some(t.as_str())),
        None => read_sysfs_u64(None),
    }
}

fn trimmed_string(c: &Option<String>) -> (r: Option<String>)
    ensures
        content_view(r) == (match *c {
            Some(t) => Some(trim(t@)),
            None => None,
        }),
{
    match c {
        Some(t) => Some(string_of(&trimmed(&chars_of(t.as_str())))),
        None => None,
    }
}

/// The readings of an AMD card from its sysfs files: VRAM in MiB (bytes
/// divided by 1 048 576, free = total − used saturating), the marked
/// clocks, and the name from `product_name`, else `model`.  `None` exactly
/// where reading a clock table fails, which an ASCII table never does.
pub fn gpu_readings(f: &GpuSysfs) -> (r: Option<GpuReadings>)
    ensures
        r is None <==> clock_reading(f.pp_dpm_sclk) is None || clock_reading(f.pp_dpm_mclk) is None,
        ascii_file(f.pp_dpm_sclk) && ascii_file(f.pp_dpm_mclk) ==> r is Some,
        r matches Some(g) ==> (ascii_file(f.pp_dpm_sclk) ==> Some(g.core_clock_mhz)
            == clock_reading_ascii(f.pp_dpm_sclk)),
        r matches Some(g) ==> (ascii_file(f.pp_dpm_mclk) ==> Some(g.memory_clock_mhz)
            == clock_reading_ascii(f.pp_dpm_mclk)),
        r matches Some(g) ==> {
            let total = number_or_zero(f.mem_info_vram_total) / 1_048_576;
            let used = number_or_zero(f.mem_info_vram_used) / 1_048_576;
            &&& g.busy_percent == number_or_zero(f.gpu_busy_percent)
            &&& g.memory_total_mb == total
            &&& g.memory_used_mb == used
            &&& g.memory_free_mb == (if total >= used {
                total - used
            } else {
                0
            })
            &&& g.temp_millidegrees == sysfs_u64(content_view(f.temp1_input))
            &&& g.power_microwatts == sysfs_u64(content_view(f.power1_average))
            &&& g.fan_pwm == sysfs_u64(content_view(f.pwm1))
            &&& Some(g.core_clock_mhz) == clock_reading(f.pp_dpm_sclk)
            &&& Some(g.memory_clock_mhz) == clock_reading(f.pp_dpm_mclk)
            &&& g.vendor@ == "AMD"@
            &&& content_view(g.name) == (match f.product_name {
                Some(t) => Some(trim(t@)),
                None => match f.model {
                    Some(t) => Some(trim(t@)),
                    None => None,
                },
            })
        },
{
    let busy = match number_of(&f.gpu_busy_percent) {
        Some(v) => v,
        None => 0,
    };
    let total_bytes = match number_of(&f.mem_info_vram_total) {
        Some(v) => v,
        None => 0,
    };
    let used_bytes = match number_of(&f.mem_info_vram_used) {
        Some(v) => v,
        None => 0,
    };
    let memory_total_mb = total_bytes / 1_048_576;
    let memory_used_mb = used_bytes / 1_048_576;
    let memory_free_mb = memory_total_mb.saturating_sub(memory_used_mb);
    let core_clock_mhz = match clock_of(&f.pp_dpm_sclk) {
        Some(v) => v,
        None => return None,
    };
    let memory_clock_mhz = match clock_of(&f.pp_dpm_mclk) {
        Some(v) => v,
        None => return None,
    };
    let name = match trimmed_string(&f.product_name) {
        Some(n) => Some(n),
        None => trimmed_string(&f.model),
    };
    Some(
        GpuReadings {
            name,
            vendor: string_of(&chars_of("AMD")),
            busy_percent: busy,
            memory_used_mb,
            memory_total_mb,
            memory_free_mb,
            temp_millidegrees: number_of(&f.temp1_input),
            power_microwatts: number_of(&f.power1_average),
            fan_pwm: number_of(&f.pwm1),
            core_clock_mhz,
            memory_clock_mhz,
        },
    )
}


/// Free and used VRAM add up to the total wherever the used amount does
/// not exceed it; free VRAM never exceeds the total.
pub proof fn lemma_vram_split(f: GpuSysfs, g: GpuReadings)
    requires
        g.memory_total_mb == number_or_zero(f.mem_info_vram_total) / 1_048_576,
        g.memory_used_mb == number_or_zero(f.mem_info_vram_used) / 1_048_576,
        g.memory_free_mb == (if g.memory_total_mb >= g.memory_used_mb {
            g.memory_total_mb - g.memory_used_mb
        } else {
            0
        }),
    ensures
        g.memory_free_mb <= g.memory_total_mb,
        g.memory_used_mb <= g.memory_total_mb ==> g.memory_free_mb + g.memory_used_mb
            == g.memory_total_mb,
{
}

} // verus!
