use std::collections::HashMap;
use std::time::Instant;

use metrics::processes::{
    advance_processes, clean_cmdline, needs_user_table, ProcessSnapshot, choose_cmdline, is_pid_name, lookup_user, page_size_from, parse_cmdline_bytes, parse_passwd,
    parse_stat_line, parse_uid, process_record, stat_line_ticks_fit, tick_delta, StatInfo,
};

fn make_stat_line(utime: u64, stime: u64) -> String {
    let mut fields = vec!["0".to_string(); 22];
    fields[0] = "S".to_string();
    fields[11] = utime.to_string();
    fields[12] = stime.to_string();
    fields[21] = "42".to_string();
    format!("1234 (my (process) name) {}", fields.join(" "))
}

#[test]
fn test_parse_stat_line_with_spaces_and_parentheses() {
    let stat = parse_stat_line(&make_stat_line(111, 222)).expect("parsed stat line");
    assert_eq!(stat.pid, 1234);
    assert_eq!(stat.name, "my (process) name");
    assert_eq!(stat.state, "S");
    assert_eq!(stat.total_ticks, 333);
    assert_eq!(stat.rss_pages, 42);
}

#[test]
fn test_cmdline_nul_replacement() {
    let cmd = parse_cmdline_bytes(b"bash\0-c\0echo\0");
    assert_eq!(cmd, "bash -c echo");
}

#[test]
fn stat_line_too_few_fields_is_rejected() {
    assert_eq!(parse_stat_line("1 (init) S 0 0"), None);
}

#[test]
fn stat_line_without_parenthesis_is_rejected() {
    assert_eq!(parse_stat_line("1 init S 0 0 0 0 0 0 0 0 0 0 0 0 0 0 0 0 0 0 0 0 0"), None);
}

#[test]
fn stat_line_with_bad_pid_is_rejected() {
    let line = make_stat_line(1, 2).replacen("1234", "12x4", 1);
    assert_eq!(parse_stat_line(&line), None);
}

#[test]
fn stat_line_with_non_ascii_after_name_is_rejected() {
    let line = make_stat_line(1, 2).replacen(") S", ")é S", 1);
    assert_eq!(parse_stat_line(&line), None);
}

#[test]
fn stat_line_tick_overflow_is_detected() {
    let line = make_stat_line(u64::MAX, 1);
    assert!(!stat_line_ticks_fit(&line));
    assert!(stat_line_ticks_fit(&make_stat_line(1, 2)));
}

#[test]
fn cmdline_trailing_spaces_removed_and_empty_falls_back() {
    assert_eq!(parse_cmdline_bytes(b"a  \0\0"), "a");
    assert_eq!(choose_cmdline(Some(b"\0\0"), "kworker"), "kworker");
    assert_eq!(choose_cmdline(None, "kworker"), "kworker");
    assert_eq!(choose_cmdline(Some(b"/bin/sh\0-c"), "sh"), "/bin/sh -c");
}

#[test]
fn cmdline_invalid_utf8_is_replaced() {
    assert_eq!(parse_cmdline_bytes(b"a\xffb"), "a\u{FFFD}b");
}

#[test]
fn uid_from_status() {
    assert_eq!(parse_uid("Name:\tbash\nUid:\t1000\t1000\t1000\t1000\n"), Some(1000));
    assert_eq!(parse_uid("Name:\tbash\n"), None);
    assert_eq!(parse_uid("Uid:\n"), None);
    assert_eq!(parse_uid("Uid:\tx\nUid:\t5\n"), None);
}

#[test]
fn passwd_cache_last_entry_wins() {
    let users = parse_passwd("root:x:0:0::/root:/bin/bash\nbad line\nmarkus:x:1000:1000::/home/m:/bin/sh\nother:x:1000:1\n");
    assert_eq!(users.get(&0).map(|s| s.as_str()), Some("root"));
    assert_eq!(users.get(&1000).map(|s| s.as_str()), Some("other"));
    assert_eq!(users.len(), 2);
}

#[test]
fn unknown_user_is_dash() {
    let mut users = HashMap::new();
    users.insert(1000u32, "markus".to_string());
    assert_eq!(lookup_user(Some(1000), &users), "markus");
    assert_eq!(lookup_user(Some(7), &users), "—");
    assert_eq!(lookup_user(None, &users), "—");
}

#[test]
fn pid_names() {
    assert!(is_pid_name("1234"));
    assert!(!is_pid_name("self"));
    assert!(!is_pid_name("12a"));
}

#[test]
fn page_size_default() {
    assert_eq!(page_size_from(16384), 16384);
    assert_eq!(page_size_from(-1), 4096);
    assert_eq!(page_size_from(0), 4096);
}

#[test]
fn first_sample_has_no_tick_delta() {
    assert_eq!(tick_delta(None, 115), None);
    assert_eq!(tick_delta(Some(100), 115), Some(15));
    assert_eq!(tick_delta(Some(200), 115), Some(0));
}

#[test]
fn process_record_uses_cmdline_status_and_users() {
    let stat = StatInfo {
        pid: 1234,
        name: "bash".to_string(),
        state: "S".to_string(),
        total_ticks: 115,
        rss_pages: 42,
    };
    let mut users = HashMap::new();
    users.insert(1000u32, "markus".to_string());
    let rec = process_record(
        &stat,
        Some(b"bash\0-c\0echo\0"),
        Some("Name:\tbash\nUid:\t1000\t1000\t1000\t1000\n"),
        &users,
        4096,
    );
    assert_eq!(rec.pid, 1234);
    assert_eq!(rec.cmd, "bash -c echo");
    assert_eq!(rec.user, "markus");
    assert_eq!(rec.status, "S");
    assert_eq!(rec.mem_bytes, 42 * 4096);
    let big = StatInfo { rss_pages: u64::MAX, ..stat };
    let rec = process_record(&big, None, None, &users, 4096);
    assert_eq!(rec.mem_bytes, u64::MAX);
    assert_eq!(rec.cmd, "bash");
    assert_eq!(rec.user, "—");
}

#[test]
fn cleaning_decoded_command_lines() {
    assert_eq!(clean_cmdline("bash\0-c\0echo\0"), "bash -c echo");
    assert_eq!(clean_cmdline("a\0\0 \0"), "a");
    assert_eq!(clean_cmdline(""), "");
}

#[test]
fn process_state_advances() {
    let mut s = ProcessSnapshot::default();
    assert!(needs_user_table(&s));
    s.users.insert(1000, "markus".to_string());
    assert!(!needs_user_table(&s));
    let mut ticks = HashMap::new();
    ticks.insert(1234u32, 115u64);
    let t = Instant::now();
    advance_processes(&mut s, Some(ticks), t);
    assert_eq!(s.ticks.get(&1234), Some(&115));
    assert_eq!(s.at, t);
    assert_eq!(s.users.get(&1000).map(|u| u.as_str()), Some("markus"));
    advance_processes(&mut s, None, Instant::now());
    assert!(s.ticks.is_empty());
    assert_eq!(s.users.len(), 1);
}

#[test]
fn malformed_stat_lines_are_refused() {
    assert!(parse_stat_line("1234 (bash) S 1 2 3").is_none());
    assert!(parse_stat_line("1234 bash S").is_none());
    assert!(parse_stat_line("x (bash) S 0 0 0 0 0 0 0 0 0 0 0 0 0 0 0 0 0 0 0 0 0").is_none());
    assert!(parse_stat_line("12 (a) S 0 0 0 0 0 0 0 0 0 0 x 0 0 0 0 0 0 0 0 0 0").is_none());
    assert!(parse_stat_line("12 (a) S 0 0 0 0 0 0 0 0 0 0 0 0 0 0 0 0 0 0 0 0 0").is_some());
}

#[test]
fn process_record_decodes_utf8_command_lines() {
    let stat = StatInfo {
        pid: 7,
        name: "vim".to_string(),
        state: "R".to_string(),
        total_ticks: 0,
        rss_pages: 1,
    };
    let users = HashMap::new();
    let rec = process_record(&stat, Some("vim\0café.txt\0".as_bytes()), None, &users, 4096);
    assert_eq!(rec.cmd, "vim café.txt");
    let rec = process_record(&stat, Some(b"\0\0"), None, &users, 4096);
    assert_eq!(rec.cmd, "vim");
}
