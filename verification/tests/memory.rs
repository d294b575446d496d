use metrics::memory::{build_stats, parse_meminfo, parse_meminfo_checked, MemInfo};

const FAKE_MEMINFO: &str = "\
MemTotal:       16384000 kB\n\
MemFree:         2048000 kB\n\
MemAvailable:    4096000 kB\n\
Active:          6144000 kB\n\
Inactive:        2000000 kB\n\
SwapTotal:        524288 kB\n\
SwapFree:         262144 kB\n";

#[test]
fn test_parse_meminfo_keys() {
    let map = parse_meminfo(FAKE_MEMINFO);
    assert_eq!(map.get("MemTotal").unwrap(), 16384000 * 1024);
    assert_eq!(map.get("MemFree").unwrap(), 2048000 * 1024);
    assert_eq!(map.get("MemAvailable").unwrap(), 4096000 * 1024);
    assert_eq!(map.get("Active").unwrap(), 6144000 * 1024);
    assert_eq!(map.get("SwapTotal").unwrap(), 524288 * 1024);
    assert_eq!(map.get("SwapFree").unwrap(), 262144 * 1024);
}

#[test]
fn build_stats_integer_figures() {
    let map = parse_meminfo(FAKE_MEMINFO);
    let stats = build_stats(&map);
    let total_kb: u64 = 16384000;
    let free_kb: u64 = 2048000;
    let used_kb = total_kb - free_kb;
    assert_eq!(stats.total_bytes, total_kb * 1024);
    assert_eq!(stats.free_bytes, free_kb * 1024);
    assert_eq!(stats.used_bytes, used_kb * 1024);
    assert_eq!(stats.avail_bytes, 4096000 * 1024);
    assert_eq!(stats.active_bytes, 6144000 * 1024);
    assert_eq!(stats.swap_total, 524288 * 1024);
    assert_eq!(stats.swap_used, 262144 * 1024);
}

#[test]
fn empty_table_gives_zeros() {
    let stats = build_stats(&MemInfo::new());
    assert_eq!(stats.total_bytes, 0);
    assert_eq!(stats.used_bytes, 0);
    assert_eq!(stats.swap_used, 0);
}

#[test]
fn meminfo_odd_lines() {
    let map = parse_meminfo("no colon\nHugePages_Total:       3\nBad: x kB\nEmpty:\nMemFree: 10 kB\nMemFree: 20 kB\n");
    assert_eq!(map.get("HugePages_Total"), Some(3 * 1024));
    assert_eq!(map.get("Bad"), Some(0));
    assert_eq!(map.get("Empty"), Some(0));
    assert_eq!(map.get("MemFree"), Some(20 * 1024));
    assert_eq!(map.get("no colon"), None);
    let stats = build_stats(&map);
    assert_eq!(stats.used_bytes, 0);
}

#[test]
fn meminfo_overflow_detected() {
    assert!(parse_meminfo_checked("Big: 18446744073709551615 kB\n").is_none());
    assert!(parse_meminfo_checked(FAKE_MEMINFO).is_some());
}
