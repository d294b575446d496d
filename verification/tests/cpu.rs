use metrics::cpu::{compute_deltas, cpu_totals_fit, delta_ticks, parse_stat, CpuTimes};

fn make_times(user: u64, nice: u64, system: u64, idle: u64) -> CpuTimes {
    CpuTimes { user, nice, system, idle, ..Default::default() }
}

#[test]
fn test_parse_stat_aggregate_and_cores() {
    let content = "\
cpu  100 0 50 200 0 0 0 0\n\
cpu0  50 0 25 100 0 0 0 0\n\
cpu1  50 0 25 100 0 0 0 0\n\
intr 12345\n";
    let times = parse_stat(content);
    assert_eq!(times.len(), 3); // aggregate + 2 cores
    assert_eq!(times[0].user, 100);
    assert_eq!(times[1].idle, 100);
    assert_eq!(times[2].system, 25);
}

#[test]
fn parse_stat_stops_at_first_other_line_and_reads_steal() {
    let content = "cpu 1 2 3 4 5 6 7 8\nintr 1\ncpu0 1 1 1 1 1 1 1\ncpu1 short\n";
    let times = parse_stat(content);
    assert_eq!(times.len(), 1);
    assert_eq!(times[0].steal, 8);
    assert_eq!(times[0].softirq, 7);
    let times = parse_stat("cpu 1 2 3 4 5 6 7\ncpu0 x 2 3 4 5 6 7\ncpu1 1\n");
    assert_eq!(times.len(), 2);
    assert_eq!(times[0].steal, 0);
    assert_eq!(times[1].user, 0);
}

#[test]
fn time_groups_partition_total() {
    let t = CpuTimes { user: 1, nice: 2, system: 3, idle: 4, iowait: 5, irq: 6, softirq: 7, steal: 8 };
    assert_eq!(t.total(), 36);
    assert_eq!(t.idle_total() + t.user_total() + t.sys_total() + t.steal, t.total());
}

#[test]
fn delta_fifty_percent_load_ticks() {
    let before = make_times(0, 0, 0, 100);
    let after = make_times(50, 0, 0, 150);
    let d = delta_ticks(&before, &after);
    assert_eq!((d.total, d.idle, d.user, d.sys), (100, 50, 50, 0));
}

#[test]
fn identical_readings_give_zero_delta() {
    let t = make_times(100, 0, 50, 200);
    let d = delta_ticks(&t, &t);
    assert_eq!((d.total, d.idle, d.user, d.sys), (0, 0, 0, 0));
}

#[test]
fn deltas_of_aggregate_and_cores() {
    let before = vec![make_times(0, 0, 0, 1000), make_times(0, 0, 0, 500), make_times(0, 0, 0, 500)];
    let after = vec![make_times(100, 0, 0, 1000), make_times(100, 0, 0, 500), make_times(0, 0, 0, 600)];
    assert!(cpu_totals_fit(&before, &after));
    let (agg, cores) = compute_deltas(&before, &after);
    let agg = agg.unwrap();
    assert_eq!((agg.total, agg.idle, agg.user), (100, 0, 100));
    assert_eq!(cores.len(), 2);
    assert_eq!((cores[0].total, cores[0].idle), (100, 0));
    assert_eq!((cores[1].total, cores[1].idle), (100, 100));
    let (agg, cores) = compute_deltas(&before, &[]);
    assert!(agg.is_none());
    assert!(cores.is_empty());
    let big = vec![CpuTimes { user: u64::MAX, nice: 1, ..Default::default() }];
    assert!(!cpu_totals_fit(&big, &big));
}
