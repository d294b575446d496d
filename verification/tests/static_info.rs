use metrics::gpu::GpuReadings;
use metrics::static_info::{
    disk_sizes, distinct_devices, gpu_static_info, os_info_from_texts, parse_cpuinfo, parse_mounts,
    parse_os_release,
};

const CPUINFO_2CORE: &str = "\
processor\t: 0\nvendor_id\t: GenuineIntel\ncpu family\t: 6\nmodel\t: 142\n\
model name\t: Intel(R) Core(TM) i7-8550U CPU @ 1.80GHz\nstepping\t: 10\n\
cpu MHz\t\t: 1992.000\ncache size\t: 8192 KB\nphysical id\t: 0\ncore id\t: 0\n\n\
processor\t: 1\nvendor_id\t: GenuineIntel\ncpu family\t: 6\nmodel\t: 142\n\
model name\t: Intel(R) Core(TM) i7-8550U CPU @ 1.80GHz\nstepping\t: 10\n\
cpu MHz\t\t: 1992.000\ncache size\t: 8192 KB\nphysical id\t: 0\ncore id\t: 1\n\n";

#[test]
fn test_cpuinfo_manufacturer() {
    let info = parse_cpuinfo(CPUINFO_2CORE);
    assert_eq!(info.manufacturer, "Intel");
}

#[test]
fn test_cpuinfo_brand() {
    let info = parse_cpuinfo(CPUINFO_2CORE);
    assert_eq!(info.brand, "Intel(R) Core(TM) i7-8550U CPU @ 1.80GHz");
}

#[test]
fn test_cpuinfo_cores() {
    let info = parse_cpuinfo(CPUINFO_2CORE);
    assert_eq!(info.cores, 2);
}

#[test]
fn test_cpuinfo_physical_cores() {
    let info = parse_cpuinfo(CPUINFO_2CORE);
    assert_eq!(info.physical_cores, 2); // two distinct core id values: 0 and 1
}

#[test]
fn test_cpuinfo_amd_manufacturer() {
    let content = "processor\t: 0\nmodel name\t: AMD Ryzen 9 5900X\ncpu MHz\t: 3700.0\n";
    let info = parse_cpuinfo(content);
    assert_eq!(info.manufacturer, "AMD");
}

#[test]
fn cpuinfo_other_figures() {
    let info = parse_cpuinfo(CPUINFO_2CORE);
    assert_eq!(info.socket, 1);
    assert_eq!(info.cache, "8192 KB");
    assert_eq!(info.mhz_readings, vec!["1992.000".to_string(), "1992.000".to_string()]);
    let empty = parse_cpuinfo("");
    assert_eq!(empty.cores, 0);
    assert_eq!(empty.physical_cores, 0);
    assert_eq!(empty.socket, 1);
    assert_eq!(empty.manufacturer, "");
    let no_core_ids = parse_cpuinfo("processor: 0\nprocessor: 1\nprocessor: 2\nphysical id: 0\nphysical id: 1\n");
    assert_eq!(no_core_ids.physical_cores, 3);
    assert_eq!(no_core_ids.socket, 2);
}

#[test]
fn test_os_release_parsing() {
    let os = os_info_from_texts(
        "NAME=\"Fedora Linux\"\nVERSION_ID=\"39\"\n",
        "Linux version 6.7.0-rc5 (gcc version ...)\n",
        "myhost\n",
        "x86_64",
    );
    assert_eq!(os.platform, "linux");
    assert_eq!(os.distro, "Fedora Linux");
    assert_eq!(os.release, "39");
    assert_eq!(os.kernel, "6.7.0-rc5");
    assert_eq!(os.hostname, "myhost");
    assert_eq!(os.arch, "x86_64");
}

#[test]
fn os_release_last_value_wins_and_missing_is_empty() {
    let (d, r) = parse_os_release("PRETTY_NAME=\"x\"\nNAME=Debian\nNAME=\"\"Ubuntu\"\"\n");
    assert_eq!(d, "Ubuntu");
    assert_eq!(r, "");
    let os = os_info_from_texts("", "Linux", "", "aarch64");
    assert_eq!(os.kernel, "");
    assert_eq!(os.distro, "");
}

#[test]
fn test_mounts_pseudo_filtered() {
    let content = "\
sysfs /sys sysfs rw 0 0\n\
tmpfs /run tmpfs rw 0 0\n\
/dev/sda1 / ext4 rw 0 0\n\
/dev/sda2 /home ext4 rw 0 0\n\
proc /proc proc rw 0 0\n";
    let mounts = parse_mounts(content);
    // Only real block devices survive
    let mount_points: Vec<&str> = mounts.iter().map(|(_, m, _)| m.as_str()).collect();
    assert!(!mount_points.contains(&"/sys"));
    assert!(!mount_points.contains(&"/run"));
    assert!(!mount_points.contains(&"/proc"));
    assert!(mount_points.contains(&"/"));
    assert!(mount_points.contains(&"/home"));
}

#[test]
fn mounts_keep_order_and_drop_short_lines() {
    let mounts = parse_mounts("/dev/a / ext4 rw\nshort line\n/dev/b /x btrfs rw\ncgroup2 /c cgroup2 rw\n");
    assert_eq!(
        mounts,
        vec![
            ("/dev/a".to_string(), "/".to_string(), "ext4".to_string()),
            ("/dev/b".to_string(), "/x".to_string(), "btrfs".to_string()),
        ]
    );
}

#[test]
fn first_mount_of_each_device_kept() {
    let mounts = parse_mounts("/dev/a / ext4 rw\n/dev/a /snap ext4 rw\n/dev/b /x xfs rw\n");
    let d = distinct_devices(&mounts);
    assert_eq!(d.len(), 2);
    assert_eq!(d[0].1, "/");
    assert_eq!(d[1].0, "/dev/b");
}

#[test]
fn statvfs_sizes() {
    assert_eq!(disk_sizes(1000, 300, 400, 4096), (4_096_000, 2_457_600, 1_228_800));
    assert_eq!(disk_sizes(10, 20, 20, 512), (5120, 0, 10240));
}

#[test]
fn gpu_static_from_readings() {
    let r = GpuReadings {
        name: Some("Radeon".to_string()),
        vendor: "AMD".to_string(),
        busy_percent: 1,
        memory_used_mb: 1,
        memory_total_mb: 8192,
        memory_free_mb: 8191,
        temp_millidegrees: None,
        power_microwatts: None,
        fan_pwm: None,
        core_clock_mhz: 0,
        memory_clock_mhz: 0,
    };
    let s = gpu_static_info(&r, Some("6.1\n"));
    assert_eq!(s.model, Some("Radeon".to_string()));
    assert_eq!(s.vendor, "AMD");
    assert_eq!(s.vram, 8192);
    assert!(!s.vram_dynamic);
    assert_eq!(s.driver_version, Some("6.1".to_string()));
    assert_eq!(gpu_static_info(&r, None).driver_version, None);
}

#[test]
fn mounts_of_two_texts_follow_each_other() {
    let a = "/dev/sda1 / ext4 rw 0 0\nproc /proc proc rw 0 0\n";
    let b = "/dev/sdb1 /home xfs rw 0 0\n";
    let whole = parse_mounts(&format!("{}{}", a, b));
    let mut parts = parse_mounts(a);
    parts.extend(parse_mounts(b));
    assert_eq!(whole, parts);
    assert_eq!(whole.len(), 2);
}
