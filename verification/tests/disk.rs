use std::time::Instant;

use metrics::disk::{
    disk_deltas, disk_growth, disk_step, parse_diskstats, parse_diskstats_checked, partition_name,
    skip_device, DiskCounters, DiskSnapshot,
};

const DISKSTATS_A: &str = "\
   8   0 sda 1000 0 8000 0 500 0 4000 0 0 0 0\n\
   8   1 sda1 200 0 1600 0 100 0 800 0 0 0 0\n\
   7   0 loop0 0 0 0 0 0 0 0 0 0 0 0\n\
 253   0 dm-0 800 0 6400 0 400 0 3200 0 0 0 0\n\
 259   0 nvme0n1 2000 0 16000 0 1000 0 8000 0 0 0 0\n\
 259   1 nvme0n1p1 100 0 800 0 50 0 400 0 0 0 0\n";

const DISKSTATS_B: &str = "\
   8   0 sda 1100 0 9000 0 600 0 5000 0 0 0 0\n\
   8   1 sda1 220 0 1760 0 110 0 880 0 0 0 0\n\
   7   0 loop0 0 0 0 0 0 0 0 0 0 0 0\n\
 253   0 dm-0 900 0 7200 0 500 0 4000 0 0 0 0\n\
 259   0 nvme0n1 2200 0 17600 0 1100 0 9000 0 0 0 0\n\
 259   1 nvme0n1p1 110 0 880 0 55 0 440 0 0 0 0\n";

#[test]
fn test_parse_diskstats_skips_partitions_and_excluded() {
    let c = parse_diskstats(DISKSTATS_A);
    assert_eq!(c.reads_completed, 1000 + 2000);
    assert_eq!(c.sectors_read, 8000 + 16000);
    assert_eq!(c.writes_completed, 500 + 1000);
    assert_eq!(c.sectors_written, 4000 + 8000);
}

#[test]
fn disk_counter_growth() {
    let a = parse_diskstats(DISKSTATS_A);
    let b = parse_diskstats(DISKSTATS_B);
    let d = disk_deltas(&a, &b);
    assert_eq!(d.sectors_read, 2600);
    assert_eq!(d.sectors_written, 2000);
    assert_eq!(d.reads_completed, 300);
    assert_eq!(d.writes_completed, 200);
    let back = disk_deltas(&b, &a);
    assert_eq!(back.sectors_read, 0);
    let same = disk_deltas(&a, &a);
    assert_eq!(same.reads_completed + same.sectors_read + same.writes_completed + same.sectors_written, 0);
}

#[test]
fn excluded_device_names() {
    for name in ["loop3", "ram0", "dm-1", "sr0", "fd0"] {
        assert!(skip_device(&name.chars().collect::<Vec<char>>()));
    }
    assert!(!skip_device(&"sda".chars().collect::<Vec<char>>()));
    assert!(!skip_device(&"nvme0n1".chars().collect::<Vec<char>>()));
}

#[test]
fn diskstats_unreadable_minor_and_short_lines() {
    let c = parse_diskstats("9 x md9 5 0 5 0 5 0 5 0\n8 0 sdc 1 0 2\n8 0 sdd 1 0 2 0 3 0 z\n");
    assert_eq!(c.reads_completed, 1);
    assert_eq!(c.sectors_read, 2);
    assert_eq!(c.writes_completed, 3);
    assert_eq!(c.sectors_written, 0);
    let d = DiskCounters::default();
    assert_eq!(d.reads_completed, 0);
}

#[test]
fn diskstats_overflow_detected() {
    let text = "8 0 sda 18446744073709551615 0 1 0 1 0 1 0\n8 0 sdb 1 0 1 0 1 0 1 0\n";
    assert!(parse_diskstats_checked(text).is_none());
    assert!(parse_diskstats_checked(DISKSTATS_A).is_some());
}

#[test]
fn first_poll_reports_no_growth() {
    let start = DiskSnapshot::default();
    assert!(start.counters.is_none());
    let curr = DiskCounters { reads_completed: 3000, sectors_read: 24000, writes_completed: 1500, sectors_written: 12000 };
    let g = disk_growth(&start, &curr);
    assert_eq!((g.reads_completed, g.sectors_read, g.writes_completed, g.sectors_written), (0, 0, 0, 0));
    let t = Instant::now();
    let (g, next) = disk_step(&start, curr, t);
    assert_eq!(g.sectors_read, 0);
    assert_eq!(next.counters.unwrap().sectors_read, 24000);
    assert_eq!(next.at, t);
    let later = DiskCounters { reads_completed: 3100, sectors_read: 24800, writes_completed: 1500, sectors_written: 12400 };
    let (g, _) = disk_step(&next, later, Instant::now());
    assert_eq!((g.reads_completed, g.sectors_read, g.writes_completed, g.sectors_written), (100, 800, 0, 400));
}

#[test]
fn every_whole_disk_is_summed() {
    let c = parse_diskstats("8 0 sda 100 0 800 0 50 0 400 0 0 0 0\n8 16 sdb 10 0 80 0 5 0 40 0 0 0 0\n");
    assert_eq!((c.reads_completed, c.sectors_read, c.writes_completed, c.sectors_written), (110, 880, 55, 440));
    let c = parse_diskstats(
        "8 17 sdb1 7 0 7 0 7 0 7 0 0 0 0\n179 0 mmcblk0 1 0 2 0 3 0 4 0 0 0 0\n179 1 mmcblk0p1 9 0 9 0 9 0 9 0 0 0 0\n259 3 nvme1n1 5 0 6 0 7 0 8 0 0 0 0\n9 0 md0 1 0 1 0 1 0 1 0 0 0 0\n9 1 md1 2 0 2 0 2 0 2 0 0 0 0\n",
    );
    assert_eq!((c.reads_completed, c.sectors_read, c.writes_completed, c.sectors_written), (7, 9, 11, 13));
}

#[test]
fn partition_names() {
    let n = |s: &str| s.chars().collect::<Vec<char>>();
    assert_eq!(partition_name(&n("sda")), Some(false));
    assert_eq!(partition_name(&n("sdb12")), Some(true));
    assert_eq!(partition_name(&n("xvda1")), Some(true));
    assert_eq!(partition_name(&n("nvme0n1")), Some(false));
    assert_eq!(partition_name(&n("nvme0n1p2")), Some(true));
    assert_eq!(partition_name(&n("mmcblk0")), Some(false));
    assert_eq!(partition_name(&n("mmcblk0p1")), Some(true));
    assert_eq!(partition_name(&n("md0")), None);
}

#[test]
fn texts_read_in_parts_sum_to_the_whole() {
    let whole = format!("{}{}", DISKSTATS_A, DISKSTATS_B);
    let c = parse_diskstats(&whole);
    let a = parse_diskstats(DISKSTATS_A);
    let b = parse_diskstats(DISKSTATS_B);
    assert_eq!(c.reads_completed, a.reads_completed + b.reads_completed);
    assert_eq!(c.sectors_written, a.sectors_written + b.sectors_written);
    let with_partition = format!("{}{}", DISKSTATS_A, "   8   2 sda2 5 0 5 0 5 0 5 0 0 0 0\n");
    assert_eq!(parse_diskstats(&with_partition).sectors_read, a.sectors_read);
}
