//! The parsing behind the static system description: `/etc/os-release`,
//! `/proc/mounts` and `/proc/cpuinfo`.
use vstd::prelude::*;

use crate::gpu::GpuReadings;
use crate::text::{
    char_is_ws, chars_of, holds, copy_range, eq_str, find_char, first_index, insert_distinct, is_ws,
    lemma_lines_concat, lines, lines_of, string_of, string_views, strip_prefix, strip_prefix_of, trim, trim_char,
    trim_matches, trimmed, views, words, words_of,
};

verus! {

// ───────────────────────────── OS release ─────────────────────────────

/// The effect of one `/etc/os-release` line on `(distro, release)`: a
/// `NAME=` line sets the distribution, a `VERSION_ID=` line the release,
/// each without surrounding double quotes.
pub open spec fn os_release_step(acc: (Seq<char>, Seq<char>), line: Seq<char>) -> (
    Seq<char>,
    Seq<char>,
) {
    match strip_prefix(line, "NAME="@) {
        Some(rest) => (trim_matches(rest, '"'), acc.1),
        None => match strip_prefix(line, "VERSION_ID="@) {
            Some(rest) => (acc.0, trim_matches(rest, '"')),
            None => acc,
        },
    }
}

pub open spec fn os_release_lines(ls: Seq<Seq<char>>) -> (Seq<char>, Seq<char>)
    decreases ls.len(),
{
    if ls.len() == 0 {
        (Seq::empty(), Seq::empty())
    } else {
        os_release_step(os_release_lines(ls.drop_last()), ls.last())
    }
}

/// `(distro, release)` of an `/etc/os-release` text: the values of its last
/// `NAME=` and last `VERSION_ID=` lines, empty where there is none.
pub open spec fn os_release(content: Seq<char>) -> (Seq<char>, Seq<char>) {
    os_release_lines(lines(content))
}

/// Parse `/etc/os-release` content into `(distro, release)`.
pub fn parse_os_release(content: &str) -> (r: (String, String))
    ensures
        r.0@ == os_release(content@).0,
        r.1@ == os_release(content@).1,
{
    let chars = chars_of(content);
    let ls = lines_of(&chars);
    let ghost lv = lines(content@);
    let mut distro: Vec<char> = Vec::new();
    let mut release: Vec<char> = Vec::new();
    let mut i: usize = 0;
    while i < ls.len()
        invariant
            i <= ls@.len(),
            views(ls@) == lv,
            (distro@, release@) == os_release_lines(lv.take(i as int)),
        decreases ls@.len() - i,
    {
        let line = &ls[i];
        assert(lv[i as int] == line@);
        assert(lv.take(i + 1).drop_last() =~= lv.take(i as int));
        match strip_prefix_of(line, "NAME=") {
            Some(rest) => {
                distro = trim_char(&rest, '"');
            },
            None => match strip_prefix_of(line, "VERSION_ID=") {
                Some(rest) => {
                    release = trim_char(&rest, '"');
                },
                None => {},
            },
        }
        i = i + 1;
    }
    assert(lv.take(lv.len() as int) =~= lv);
    (string_of(&distro), string_of(&release))
}

// ───────────────────────────── Mounts ─────────────────────────────

/// The file-system types that are not backed by storage.
pub open spec fn pseudo_fs_names() -> Seq<&'static str> {
    seq![
        "proc",
        "sysfs",
        "devtmpfs",
        "tmpfs",
        "devpts",
        "cgroup",
        "cgroup2",
        "pstore",
        "bpf",
        "tracefs",
        "hugetlbfs",
        "mqueue",
        "debugfs",
        "securityfs",
        "fusectl",
        "configfs",
        "efivarfs",
        "autofs",
    ]
}

pub open spec fn is_pseudo_fs(t: Seq<char>) -> bool {
    exists|i: int| 0 <= i < pseudo_fs_names().len() && (#[trigger] pseudo_fs_names()[i])@ == t
}

/// Whether `t` names a pseudo file system.
pub fn is_pseudo_fs_of(t: &[char]) -> (r: bool)
    ensures
        r == is_pseudo_fs(t@),
{
    let names: [&str; 18] = [
        "proc",
        "sysfs",
        "devtmpfs",
        "tmpfs",
        "devpts",
        "cgroup",
        "cgroup2",
        "pstore",
        "bpf",
        "tracefs",
        "hugetlbfs",
        "mqueue",
        "debugfs",
        "securityfs",
        "fusectl",
        "configfs",
        "efivarfs",
        "autofs",
    ];
    assert(names@ == pseudo_fs_names());
    let mut i: usize = 0;
    while i < 18
        invariant
            i <= 18,
            names@ == pseudo_fs_names(),
            forall|j: int| 0 <= j < i ==> (#[trigger] pseudo_fs_names()[j])@ != t@,
        decreases 18 - i,
    {
        if eq_str(t, names[i]) {
            return true;
        }
        i = i + 1;
    }
    false
}

/// The `(device, mount point, type)` triple of one `/proc/mounts` line, if
/// it has three fields and a type that is not a pseudo file system.
pub open spec fn mount_entry(line: Seq<char>) -> Option<(Seq<char>, Seq<char>, Seq<char>)> {
    let w = words(line);
    if w.len() < 3 || is_pseudo_fs(w[2]) {
        None
    } else {
        Some((w[0], w[1], w[2]))
    }
}

pub open spec fn mount_entries(ls: Seq<Seq<char>>) -> Seq<(Seq<char>, Seq<char>, Seq<char>)>
    decreases ls.len(),
{
    if ls.len() == 0 {
        Seq::empty()
    } else {
        let m = mount_entries(ls.drop_last());
        match mount_entry(ls.last()) {
            Some(e) => m.push(e),
            None => m,
        }
    }
}

/// The mounts of a `/proc/mounts` text, in order.
pub open spec fn mounts(content: Seq<char>) -> Seq<(Seq<char>, Seq<char>, Seq<char>)> {
    mount_entries(lines(content))
}

pub open spec fn triple_view(t: (String, String, String)) -> (Seq<char>, Seq<char>, Seq<char>) {
    (t.0@, t.1@, t.2@)
}

/// Parse `/proc/mounts` lines into `(device, mount_point, fs_type)` triples,
/// filtering out pseudo-filesystems.
pub fn parse_mounts(content: &str) -> (r: Vec<(String, String, String)>)
    ensures
        r@.map_values(|t: (String, String, String)| triple_view(t)) == mounts(content@),
{
    let chars = chars_of(content);
    let ls = lines_of(&chars);
    let ghost lv = lines(content@);
    let mut result: Vec<(String, String, String)> = Vec::new();
    let mut i: usize = 0;
    while i < ls.len()
        invariant
            i <= ls@.len(),
            views(ls@) == lv,
            result@.map_values(|t: (String, String, String)| triple_view(t)) == mount_entries(
                lv.take(i as int),
            ),
        decreases ls@.len() - i,
    {
        let line = &ls[i];
        assert(lv[i as int] == line@);
        assert(lv.take(i + 1).drop_last() =~= lv.take(i as int));
        let w = words_of(line);
        let ghost wv = words(line@);
        assert(views(w@) == wv);
        if w.len() >= 3 {
            assert(wv[2] == w@[2]@);
            if !is_pseudo_fs_of(&w[2]) {
                let ghost prev = result@;
                let e = (string_of(&w[0]), string_of(&w[1]), string_of(&w[2]));
                result.push(e);
                assert(result@.map_values(|t: (String, String, String)| triple_view(t))
                    =~= prev.map_values(|t: (String, String, String)| triple_view(t)).push(
                    (wv[0], wv[1], wv[2]),
                ));
            }
        }
        i = i + 1;
    }
    assert(lv.take(lv.len() as int) =~= lv);
    result
}


// ───────────────────────────── CPU description ─────────────────────────────

/// The processor description read from `/proc/cpuinfo`.
///
/// The clock speed is not parsed here: `mhz_readings` holds the values of
/// the `cpu MHz` lines, in order, for the caller to turn into a number.
pub struct CpuStaticInfo {
    pub manufacturer: String,
    pub brand: String,
    pub mhz_readings: Vec<String>,
    pub cores: usize,
    pub physical_cores: usize,
    pub socket: usize,
    pub cache: String,
}

/// What a `/proc/cpuinfo` text says, line by line.
pub struct CpuInfoModel {
    pub brand: Seq<char>,
    pub mhz: Seq<Seq<char>>,
    pub processors: nat,
    pub core_ids: Set<Seq<char>>,
    pub physical_ids: Set<Seq<char>>,
    pub cache: Seq<char>,
}

/// `key: value` of one line, both trimmed, split at its first colon.
pub open spec fn key_value(line: Seq<char>) -> Option<(Seq<char>, Seq<char>)> {
    match first_index(line, ':') {
        Some(p) => Some((trim(line.take(p)), trim(line.skip(p + 1)))),
        None => None,
    }
}

pub open spec fn cpuinfo_step(m: CpuInfoModel, line: Seq<char>) -> CpuInfoModel {
    match key_value(line) {
        None => m,
        Some((k, v)) => if k == "model name"@ {
            if m.brand.len() == 0 {
                CpuInfoModel { brand: v, ..m }
            } else {
                m
            }
        } else if k == "cpu MHz"@ {
            CpuInfoModel { mhz: m.mhz.push(v), ..m }
        } else if k == "processor"@ {
            CpuInfoModel { processors: m.processors + 1, ..m }
        } else if k == "core id"@ {
            CpuInfoModel { core_ids: m.core_ids.insert(trim(v)), ..m }
        } else if k == "physical id"@ {
            CpuInfoModel { physical_ids: m.physical_ids.insert(trim(v)), ..m }
        } else if k == "cache size"@ {
            if m.cache.len() == 0 {
                CpuInfoModel { cache: trim(v), ..m }
            } else {
                m
            }
        } else {
            m
        },
    }
}

pub open spec fn cpuinfo_lines(ls: Seq<Seq<char>>) -> CpuInfoModel
    decreases ls.len(),
{
    if ls.len() == 0 {
        CpuInfoModel {
            brand: Seq::empty(),
            mhz: Seq::empty(),
            processors: 0,
            core_ids: Set::empty(),
            physical_ids: Set::empty(),
            cache: Seq::empty(),
        }
    } else {
        cpuinfo_step(cpuinfo_lines(ls.drop_last()), ls.last())
    }
}

pub open spec fn cpuinfo(content: Seq<char>) -> CpuInfoModel {
    cpuinfo_lines(lines(content))
}

/// The text before the first `(` or whitespace character.
pub open spec fn head_word(s: Seq<char>) -> Seq<char>
    decreases s.len(),
{
    if s.len() == 0 || s[0] == '(' || is_ws(s[0]) {
        Seq::empty()
    } else {
        seq![s[0]] + head_word(s.drop_first())
    }
}

proof fn lemma_head_word_take(s: Seq<char>, i: int)
    requires
        0 <= i <= s.len(),
        forall|j: int| 0 <= j < i ==> s[j] != '(' && !is_ws(s[j]),
        i == s.len() || s[i] == '(' || is_ws(s[i]),
    ensures
        head_word(s) == s.take(i),
    decreases i,
{
    if i == 0 {
        assert(s.take(0) =~= Seq::<char>::empty());
    } else {
        assert forall|j: int| 0 <= j < i - 1 implies s.drop_first()[j] != '(' && !is_ws(
            s.drop_first()[j],
        ) by {
            assert(s.drop_first()[j] == s[j + 1]);
        }
        lemma_head_word_take(s.drop_first(), i - 1);
        assert(seq![s[0]] + s.drop_first().take(i - 1) =~= s.take(i));
    }
}

fn head_word_of(s: &[char]) -> (r: Vec<char>)
    ensures
        r@ == head_word(s@),
{
    let mut i: usize = 0;
    while i < s.len() && s[i] != '(' && !char_is_ws(s[i])
        invariant
            i <= s@.len(),
            forall|j: int| 0 <= j < i ==> s@[j] != '(' && !is_ws(s@[j]),
        decreases s@.len() - i,
    {
        i = i + 1;
    }
    proof {
        lemma_head_word_take(s@, i as int);
    }
    copy_range(s, 0, i)
}

/// `key_value(line)`, as values.
pub fn split_cpuinfo_line(line: &[char]) -> (r: Option<(Vec<char>, Vec<char>)>)
    ensures
        r matches Some((k, v)) ==> key_value(line@) == Some((k@, v@)),
        r is None ==> key_value(line@) is None,
{
    match find_char(line, ':') {
        Some(pos) => {
            assert(pos < line.len());
            let key = copy_range(line, 0, pos);
            let value = copy_range(line, pos + 1, line.len());
            assert(key@ =~= line@.take(pos as int));
            assert(value@ =~= line@.skip(pos + 1));
            Some((trimmed(&key), trimmed(&value)))
        },
        None => None,
    }
}

/// What `parse_cpuinfo` returns for a `/proc/cpuinfo` text.
pub open spec fn cpu_static_info_spec(content: Seq<char>, r: CpuStaticInfo) -> bool {
    let m = cpuinfo(content);
    &&& r.brand@ == m.brand
    &&& r.manufacturer@ == head_word(m.brand)
    &&& string_views(r.mhz_readings@) == m.mhz
    &&& r.cores == m.processors
    &&& r.physical_cores == (if m.core_ids.len() == 0 {
        m.processors
    } else {
        m.core_ids.len()
    })
    &&& r.socket == (if m.physical_ids.len() == 0 {
        1
    } else {
        m.physical_ids.len()
    })
    &&& r.cache@ == m.cache
}

/// Parse `/proc/cpuinfo` content: the first model name and its leading word
/// as the manufacturer, the number of `processor` entries, the number of
/// distinct `core id` and `physical id` values, the first cache size.
pub fn parse_cpuinfo(content: &str) -> (r: CpuStaticInfo)
    ensures
        cpu_static_info_spec(content@, r),
{
    let chars = chars_of(content);
    let ls = lines_of(&chars);
    let ghost lv = lines(content@);
    let mut brand: Vec<char> = Vec::new();
    let mut mhz: Vec<String> = Vec::new();
    let mut processors: usize = 0;
    let mut core_ids: Vec<Vec<char>> = Vec::new();
    let mut physical_ids: Vec<Vec<char>> = Vec::new();
    let mut cache: Vec<char> = Vec::new();
    let mut i: usize = 0;
    while i < ls.len()
        invariant
            i <= ls@.len(),
            views(ls@) == lv,
            processors <= i,
            ({
                let m = cpuinfo_lines(lv.take(i as int));
                &&& brand@ == m.brand
                &&& string_views(mhz@) == m.mhz
                &&& processors == m.processors
                &&& views(core_ids@).no_duplicates()
                &&& views(core_ids@).to_set() == m.core_ids
                &&& views(physical_ids@).no_duplicates()
                &&& views(physical_ids@).to_set() == m.physical_ids
                &&& cache@ == m.cache
            }),
        decreases ls@.len() - i,
    {
        let line = &ls[i];
        assert(lv[i as int] == line@);
        assert(lv.take(i + 1).drop_last() =~= lv.take(i as int));
        match split_cpuinfo_line(line) {
            Some((key, value)) => {
                if eq_str(&key, "model name") {
                    if brand.len() == 0 {
                        brand = value;
                    }
                } else if eq_str(&key, "cpu MHz") {
                    let ghost prev = mhz@;
                    let v = string_of(&value);
                    mhz.push(v);
                    assert(string_views(mhz@) =~= string_views(prev).push(value@));
                } else if eq_str(&key, "processor") {
                    processors = processors + 1;
                } else if eq_str(&key, "core id") {
                    insert_distinct(&mut core_ids, trimmed(&value));
                } else if eq_str(&key, "physical id") {
                    insert_distinct(&mut physical_ids, trimmed(&value));
                } else if eq_str(&key, "cache size") {
                    if cache.len() == 0 {
                        cache = trimmed(&value);
                    }
                }
            },
            None => {},
        }
        i = i + 1;
    }
    assert(lv.take(lv.len() as int) =~= lv);
    proof {
        views(core_ids@).unique_seq_to_set();
        views(physical_ids@).unique_seq_to_set();
    }
    let physical_cores = if core_ids.len() == 0 {
        processors
    } else {
        core_ids.len()
    };
    let socket = if physical_ids.len() == 0 {
        1
    } else {
        physical_ids.len()
    };
    CpuStaticInfo {
        manufacturer: string_of(&head_word_of(&brand)),
        brand: string_of(&brand),
        mhz_readings: mhz,
        cores: processors,
        physical_cores,
        socket,
        cache: string_of(&cache),
    }
}


// ───────────────────────────── OS description ─────────────────────────────

#[derive(Debug, Clone)]
pub struct OsInfo {
    pub platform: String,
    pub distro: String,
    pub release: String,
    pub arch: String,
    pub hostname: String,
    pub kernel: String,
}

/// The kernel release in a `/proc/version` text: its third word, or empty.
pub open spec fn kernel_release(proc_version: Seq<char>) -> Seq<char> {
    let w = words(proc_version);
    if w.len() > 2 {
        w[2]
    } else {
        Seq::empty()
    }
}

/// The OS description from the texts of `/etc/os-release`, `/proc/version`
/// and the kernel hostname file (each empty where unreadable) and the
/// architecture the program was built for.
pub fn os_info_from_texts(os_release_text: &str, proc_version: &str, hostname: &str, arch: &str) -> (r:
    OsInfo)
    ensures
        r.platform@ == "linux"@,
        r.distro@ == os_release(os_release_text@).0,
        r.release@ == os_release(os_release_text@).1,
        r.arch@ == arch@,
        r.hostname@ == trim(hostname@),
        r.kernel@ == kernel_release(proc_version@),
{
    let (distro, release) = parse_os_release(os_release_text);
    let w = words_of(&chars_of(proc_version));
    assert(views(w@) == words(proc_version@));
    let kernel = if w.len() > 2 {
        assert(words(proc_version@)[2] == w@[2]@);
        string_of(&w[2])
    } else {
        String::new()
    };
    OsInfo {
        platform: string_of(&chars_of("linux")),
        distro,
        release,
        arch: string_of(&chars_of(arch)),
        hostname: string_of(&trimmed(&chars_of(hostname))),
        kernel,
    }
}

// ───────────────────────────── GPU description ─────────────────────────────

#[derive(Debug, Clone)]
pub struct GpuStaticInfo {
    pub model: Option<String>,
    pub vendor: String,
    pub vram: u64,
    pub vram_dynamic: bool,
    pub driver_version: Option<String>,
}

pub open spec fn opt_view(s: Option<String>) -> Option<Seq<char>> {
    match s {
        Some(t) => Some(t@),
        None => None,
    }
}

fn copy_string(s: &String) -> (r: String)
    ensures
        r@ == s@,
{
    string_of(&chars_of(s.as_str()))
}

/// The static description of a card with the given readings, and the
/// trimmed text of its driver's `module/version` file, if readable.
pub fn gpu_static_info(readings: &GpuReadings, driver_version: Option<&str>) -> (r: GpuStaticInfo)
    ensures
        opt_view(r.model) == opt_view(readings.name),
        r.vendor@ == readings.vendor@,
        r.vram == readings.memory_total_mb,
        !r.vram_dynamic,
        opt_view(r.driver_version) == (match driver_version {
            Some(t) => Some(trim(t@)),
            None => None,
        }),
{
    let model = match &readings.name {
        Some(n) => Some(copy_string(n)),
        None => None,
    };
    let driver = match driver_version {
        Some(t) => Some(string_of(&trimmed(&chars_of(t)))),
        None => None,
    };
    GpuStaticInfo {
        model,
        vendor: copy_string(&readings.vendor),
        vram: readings.memory_total_mb,
        vram_dynamic: false,
        driver_version: driver,
    }
}

// ───────────────────────────── Mounted disks ─────────────────────────────

/// The mounts whose device has not appeared in an earlier mount, in order.
pub open spec fn first_per_device(ms: Seq<(Seq<char>, Seq<char>, Seq<char>)>) -> Seq<
    (Seq<char>, Seq<char>, Seq<char>),
>
    decreases ms.len(),
{
    if ms.len() == 0 {
        Seq::empty()
    } else {
        let prev = first_per_device(ms.drop_last());
        if ms.drop_last().map_values(|m: (Seq<char>, Seq<char>, Seq<char>)| m.0).contains(
            ms.last().0,
        ) {
            prev
        } else {
            prev.push(ms.last())
        }
    }
}

pub open spec fn devices(ms: Seq<(Seq<char>, Seq<char>, Seq<char>)>) -> Seq<Seq<char>> {
    ms.map_values(|m: (Seq<char>, Seq<char>, Seq<char>)| m.0)
}

/// Keep the first mount of each device.
pub fn distinct_devices(mounts: &Vec<(String, String, String)>) -> (r: Vec<(String, String, String)>)
    ensures
        r@.map_values(|t: (String, String, String)| triple_view(t)) == first_per_device(
            mounts@.map_values(|t: (String, String, String)| triple_view(t)),
        ),
{
    let ghost ms = mounts@.map_values(|t: (String, String, String)| triple_view(t));
    let mut seen: Vec<Vec<char>> = Vec::new();
    let mut result: Vec<(String, String, String)> = Vec::new();
    let mut i: usize = 0;
    while i < mounts.len()
        invariant
            i <= mounts@.len(),
            ms == mounts@.map_values(|t: (String, String, String)| triple_view(t)),
            result@.map_values(|t: (String, String, String)| triple_view(t)) == first_per_device(
                ms.take(i as int),
            ),
            views(seen@).no_duplicates(),
            views(seen@).to_set() == devices(ms.take(i as int)).to_set(),
        decreases mounts@.len() - i,
    {
        let (device, mount, fstype) = &mounts[i];
        let d = chars_of(device.as_str());
        let ghost t = ms.take(i + 1);
        assert(t.drop_last() =~= ms.take(i as int));
        assert(t.last() == ms[i as int]);
        assert(ms[i as int].0 == device@);
        assert(devices(t) =~= devices(ms.take(i as int)).push(device@));
        proof {
            devices(ms.take(i as int)).lemma_push_to_set_commute(device@);
        }
        if holds(&seen, &d) {
            assert(devices(ms.take(i as int)).contains(device@)) by {
                assert(views(seen@).to_set().contains(device@));
            }
        } else {
            assert(!devices(ms.take(i as int)).contains(device@)) by {
                if devices(ms.take(i as int)).contains(device@) {
                    assert(devices(ms.take(i as int)).to_set().contains(device@));
                }
            }
            let ghost prev = result@;
            let entry = (copy_string(device), copy_string(mount), copy_string(fstype));
            result.push(entry);
            assert(result@.map_values(|t: (String, String, String)| triple_view(t))
                =~= prev.map_values(|t: (String, String, String)| triple_view(t)).push(ms[i as int]));
            insert_distinct(&mut seen, d);
        }
        i = i + 1;
    }
    assert(ms.take(ms.len() as int) =~= ms);
    result
}

/// Size, used and available bytes of a file system from its `statvfs`
/// block counts: total blocks, blocks available to unprivileged users, free
/// blocks, and the block size.  Used is the size less the free bytes, 0
/// where the free bytes are more.
pub fn disk_sizes(blocks: u64, bavail: u64, bfree: u64, bsize: u64) -> (r: (u64, u64, u64))
    requires
        blocks * bsize <= u64::MAX,
        bavail * bsize <= u64::MAX,
        bfree * bsize <= u64::MAX,
    ensures
        r.0 == blocks * bsize,
        r.1 == (if blocks * bsize >= bfree * bsize {
            blocks * bsize - bfree * bsize
        } else {
            0
        }),
        r.2 == bavail * bsize,
{
    let size = blocks * bsize;
    let available = bavail * bsize;
    let free = bfree * bsize;
    let used = size.saturating_sub(free);
    (size, used, available)
}


proof fn lemma_entries_not_pseudo(ls: Seq<Seq<char>>)
    ensures
        forall|i: int|
            0 <= i < mount_entries(ls).len() ==> !is_pseudo_fs(#[trigger] mount_entries(ls)[i].2),
    decreases ls.len(),
{
    if ls.len() > 0 {
        lemma_entries_not_pseudo(ls.drop_last());
        let prev = mount_entries(ls.drop_last());
        match mount_entry(ls.last()) {
            Some(e) => {
                assert forall|i: int| 0 <= i < mount_entries(ls).len() implies !is_pseudo_fs(
                    #[trigger] mount_entries(ls)[i].2,
                ) by {
                    if i < prev.len() {
                        assert(mount_entries(ls)[i] == prev[i]);
                    }
                }
            },
            None => {},
        }
    }
}

/// No mount that `parse_mounts` keeps has a pseudo file-system type.
pub proof fn lemma_mounts_not_pseudo(content: Seq<char>)
    ensures
        forall|i: int| 0 <= i < mounts(content).len() ==> !is_pseudo_fs(#[trigger] mounts(content)[i].2),
{
    lemma_entries_not_pseudo(lines(content));
}

/// Keeping the first mount of each device leaves no device twice.
pub proof fn lemma_first_per_device_distinct(ms: Seq<(Seq<char>, Seq<char>, Seq<char>)>)
    ensures
        devices(first_per_device(ms)).no_duplicates(),
        devices(first_per_device(ms)).to_set() == devices(ms).to_set(),
    decreases ms.len(),
{
    if ms.len() > 0 {
        let prev = ms.drop_last();
        lemma_first_per_device_distinct(prev);
        let fp = first_per_device(prev);
        assert(devices(ms) =~= devices(prev).push(ms.last().0));
        devices(prev).lemma_push_to_set_commute(ms.last().0);
        if devices(prev).contains(ms.last().0) {
            assert(devices(prev).to_set().contains(ms.last().0));
            assert(devices(prev).to_set().insert(ms.last().0) =~= devices(prev).to_set());
        } else {
            assert(devices(fp.push(ms.last())) =~= devices(fp).push(ms.last().0));
            devices(fp).lemma_push_to_set_commute(ms.last().0);
            assert(!devices(fp).contains(ms.last().0)) by {
                if devices(fp).contains(ms.last().0) {
                    assert(devices(fp).to_set().contains(ms.last().0));
                    assert(devices(prev).to_set().contains(ms.last().0));
                }
            }
        }
    }
}

proof fn lemma_mount_entries_concat(a: Seq<Seq<char>>, b: Seq<Seq<char>>)
    ensures
        mount_entries(a + b) == mount_entries(a) + mount_entries(b),
    decreases b.len(),
{
    if b.len() == 0 {
        assert(a + b =~= a);
        assert(mount_entries(a) + mount_entries(b) =~= mount_entries(a));
    } else {
        lemma_mount_entries_concat(a, b.drop_last());
        assert((a + b).drop_last() =~= a + b.drop_last());
        assert((a + b).last() == b.last());
        match mount_entry(b.last()) {
            Some(e) => {
                assert((mount_entries(a) + mount_entries(b.drop_last())).push(e) =~= mount_entries(a)
                    + mount_entries(b.drop_last()).push(e));
            },
            None => {},
        }
    }
}

/// Mounts read from two texts, the first ending with a complete line, are
/// the mounts of the first, then those of the second.
pub proof fn lemma_mounts_concat(a: Seq<char>, b: Seq<char>)
    requires
        a.len() == 0 || a.last() == '\n',
    ensures
        mounts(a + b) == mounts(a) + mounts(b),
{
    lemma_lines_concat(a, b);
    lemma_mount_entries_concat(lines(a), lines(b));
}

/// The pseudo file systems are exactly these eighteen types; every other
/// type (`ext4`, `xfs`, `vfat`, `btrfs`, ...) is backed by storage.
pub proof fn lemma_pseudo_fs_types(t: Seq<char>)
    ensures
        is_pseudo_fs(t) <==> (t == "proc"@ || t == "sysfs"@ || t == "devtmpfs"@ || t == "tmpfs"@
            || t == "devpts"@ || t == "cgroup"@ || t == "cgroup2"@ || t == "pstore"@ || t == "bpf"@
            || t == "tracefs"@ || t == "hugetlbfs"@ || t == "mqueue"@ || t == "debugfs"@ || t
            == "securityfs"@ || t == "fusectl"@ || t == "configfs"@ || t == "efivarfs"@ || t
            == "autofs"@),
{
    let n = pseudo_fs_names();
    if is_pseudo_fs(t) {
        let i = choose|i: int| 0 <= i < n.len() && (#[trigger] n[i])@ == t;
        assert(0 <= i < 18);
    }
    if t == "proc"@ { assert(n[0]@ == t); }
    if t == "sysfs"@ { assert(n[1]@ == t); }
    if t == "devtmpfs"@ { assert(n[2]@ == t); }
    if t == "tmpfs"@ { assert(n[3]@ == t); }
    if t == "devpts"@ { assert(n[4]@ == t); }
    if t == "cgroup"@ { assert(n[5]@ == t); }
    if t == "cgroup2"@ { assert(n[6]@ == t); }
    if t == "pstore"@ { assert(n[7]@ == t); }
    if t == "bpf"@ { assert(n[8]@ == t); }
    if t == "tracefs"@ { assert(n[9]@ == t); }
    if t == "hugetlbfs"@ { assert(n[10]@ == t); }
    if t == "mqueue"@ { assert(n[11]@ == t); }
    if t == "debugfs"@ { assert(n[12]@ == t); }
    if t == "securityfs"@ { assert(n[13]@ == t); }
    if t == "fusectl"@ { assert(n[14]@ == t); }
    if t == "configfs"@ { assert(n[15]@ == t); }
    if t == "efivarfs"@ { assert(n[16]@ == t); }
    if t == "autofs"@ { assert(n[17]@ == t); }
}

/// The mounts of a text are its lines of at least three fields whose type
/// is not a pseudo file system, each as (device, mount point, type), in the
/// order of the lines: no other line is dropped and none is added.
pub proof fn lemma_mounts_keep_real_lines(content: Seq<char>)
    ensures
        mounts(content) == lines(content).filter_map(
            |l: Seq<char>|
                if words(l).len() >= 3 && !is_pseudo_fs(words(l)[2]) {
                    Some((words(l)[0], words(l)[1], words(l)[2]))
                } else {
                    None
                },
        ),
{
    lemma_mount_entries_keep(lines(content));
}

proof fn lemma_mount_entries_keep(ls: Seq<Seq<char>>)
    ensures
        mount_entries(ls) == ls.filter_map(
            |l: Seq<char>|
                if words(l).len() >= 3 && !is_pseudo_fs(words(l)[2]) {
                    Some((words(l)[0], words(l)[1], words(l)[2]))
                } else {
                    None
                },
        ),
    decreases ls.len(),
{
    let f = |l: Seq<char>|
        if words(l).len() >= 3 && !is_pseudo_fs(words(l)[2]) {
            Some((words(l)[0], words(l)[1], words(l)[2]))
        } else {
            None
        };
    if ls.len() > 0 {
        lemma_mount_entries_keep(ls.drop_last());
        match f(ls.last()) {
            Some(e) => {
                assert(mount_entries(ls.drop_last()).push(e) =~= ls.drop_last().filter_map(f) + seq![e]);
            },
            None => {},
        }
    }
}

/// Whether `line` is a `key: value` line with this key.
pub open spec fn has_key(line: Seq<char>, key: Seq<char>) -> bool {
    key_value(line) matches Some((k, _)) && k == key
}

/// The distinct trimmed values of the lines of `ls` whose key is `key`.
pub open spec fn key_values(ls: Seq<Seq<char>>, key: Seq<char>) -> Set<Seq<char>> {
    Set::new(
        |v: Seq<char>|
            exists|i: int, w: Seq<char>|
                0 <= i < ls.len() && key_value(ls[i]) == Some((key, w)) && trim(w) == v,
    )
}

proof fn lemma_key_values_push(ls: Seq<Seq<char>>, line: Seq<char>, key: Seq<char>)
    ensures
        key_values(ls.push(line), key) == (match key_value(line) {
            Some((k, w)) => if k == key {
                key_values(ls, key).insert(trim(w))
            } else {
                key_values(ls, key)
            },
            None => key_values(ls, key),
        }),
{
    let l2 = ls.push(line);
    let rhs = match key_value(line) {
        Some((k, w)) => if k == key {
            key_values(ls, key).insert(trim(w))
        } else {
            key_values(ls, key)
        },
        None => key_values(ls, key),
    };
    assert forall|v: Seq<char>| key_values(l2, key).contains(v) implies rhs.contains(v) by {
        let (i, w) = choose|i: int, w: Seq<char>|
            0 <= i < l2.len() && key_value(l2[i]) == Some((key, w)) && trim(w) == v;
        if i < ls.len() {
            assert(l2[i] == ls[i]);
            assert(key_values(ls, key).contains(v));
        }
    }
    assert forall|v: Seq<char>| rhs.contains(v) implies key_values(l2, key).contains(v) by {
        if key_values(ls, key).contains(v) {
            let (i, w) = choose|i: int, w: Seq<char>|
                0 <= i < ls.len() && key_value(ls[i]) == Some((key, w)) && trim(w) == v;
            assert(l2[i] == ls[i]);
        } else {
            match key_value(line) {
                Some((k, w)) => {
                    assert(l2[ls.len() as int] == line);
                    assert(key_value(l2[ls.len() as int]) == Some((key, w)) && trim(w) == v);
                },
                None => {},
            }
        }
    }
    assert(key_values(l2, key) =~= rhs);
}

proof fn lemma_cpuinfo_key_lines(ls: Seq<Seq<char>>)
    ensures
        cpuinfo_lines(ls).processors == ls.filter(|l: Seq<char>| has_key(l, "processor"@)).len(),
        cpuinfo_lines(ls).core_ids == key_values(ls, "core id"@),
        cpuinfo_lines(ls).physical_ids == key_values(ls, "physical id"@),
    decreases ls.len(),
{
    reveal_strlit("model name");
    reveal_strlit("cpu MHz");
    reveal_strlit("processor");
    reveal_strlit("core id");
    reveal_strlit("physical id");
    reveal_strlit("cache size");
    assert("core id"@[1] != "cpu MHz"@[1]);
    assert("model name"@[0] != "cache size"@[0]);
    if ls.len() == 0 {
        reveal(Seq::filter);
        assert(key_values(ls, "core id"@) =~= Set::empty());
        assert(key_values(ls, "physical id"@) =~= Set::empty());
    } else {
        let d = ls.drop_last();
        lemma_cpuinfo_key_lines(d);
        assert(d.push(ls.last()) =~= ls);
        lemma_key_values_push(d, ls.last(), "core id"@);
        lemma_key_values_push(d, ls.last(), "physical id"@);
        assert("model name"@.len() == 10 && "cpu MHz"@.len() == 7 && "processor"@.len() == 9
            && "core id"@.len() == 7 && "physical id"@.len() == 11 && "cache size"@.len() == 10);
        let p = |l: Seq<char>| has_key(l, "processor"@);
        reveal(Seq::filter);
        assert(ls.filter(p) == if p(ls.last()) {
            d.filter(p).push(ls.last())
        } else {
            d.filter(p)
        });
        match key_value(ls.last()) {
            Some((k, v)) => {
                if k == "processor"@ {
                    assert(k != "model name"@ && k != "cpu MHz"@);
                } else if k == "physical id"@ {
                    assert(k != "model name"@ && k != "cpu MHz"@ && k != "processor"@ && k
                        != "core id"@);
                }
            },
            None => {},
        }
    }
}

/// What `parse_cpuinfo` counts: the logical cores are the `processor`
/// lines; the physical cores are the distinct trimmed `core id` values,
/// or the logical cores where no `core id` line exists; the sockets are
/// the distinct trimmed `physical id` values, or 1 where none exists.
pub proof fn lemma_cpu_counts(content: Seq<char>, r: CpuStaticInfo)
    requires
        cpu_static_info_spec(content, r),
    ensures
        r.cores == lines(content).filter(|l: Seq<char>| has_key(l, "processor"@)).len(),
        key_values(lines(content), "core id"@).len() > 0 ==> r.physical_cores == key_values(
            lines(content),
            "core id"@,
        ).len(),
        key_values(lines(content), "core id"@).len() == 0 ==> r.physical_cores == r.cores,
        key_values(lines(content), "physical id"@).len() > 0 ==> r.socket == key_values(
            lines(content),
            "physical id"@,
        ).len(),
        key_values(lines(content), "physical id"@).len() == 0 ==> r.socket == 1,
{
    lemma_cpuinfo_key_lines(lines(content));
}

} // verus!
