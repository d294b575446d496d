use metrics::gpu::{read_dpm_line, DpmLine, find_amd_card, gpu_readings, is_amd_vendor, parse_pp_dpm, pp_dpm_sliceable, read_sysfs_u64, GpuSysfs};

fn fake_sysfs() -> GpuSysfs {
    GpuSysfs {
        gpu_busy_percent: Some("72\n".to_string()),
        mem_info_vram_total: Some("8589934592\n".to_string()),
        mem_info_vram_used: Some("2147483648\n".to_string()),
        temp1_input: Some("65000\n".to_string()),
        power1_average: Some("120000000\n".to_string()),
        pwm1: Some("178\n".to_string()),
        pp_dpm_sclk: Some("0: 500Mhz\n1: 1800Mhz *\n2: 2200Mhz\n".to_string()),
        pp_dpm_mclk: Some("0: 96Mhz\n1: 1000Mhz *\n".to_string()),
        product_name: Some("Radeon RX 7900 XTX\n".to_string()),
        model: None,
    }
}

#[test]
fn test_vram_fields() {
    let stats = gpu_readings(&fake_sysfs()).unwrap();
    assert_eq!(stats.memory_total_mb, 8192);
    assert_eq!(stats.memory_used_mb, 2048);
    assert_eq!(stats.memory_free_mb, 6144);
}

#[test]
fn test_clocks() {
    let stats = gpu_readings(&fake_sysfs()).unwrap();
    assert_eq!(stats.core_clock_mhz, 1800);
    assert_eq!(stats.memory_clock_mhz, 1000);
}

#[test]
fn test_gpu_name_and_vendor() {
    let stats = gpu_readings(&fake_sysfs()).unwrap();
    assert_eq!(stats.name, Some("Radeon RX 7900 XTX".to_string()));
    assert_eq!(stats.vendor, "AMD");
}

#[test]
fn test_non_amd_vendor_returns_none() {
    let vendors = vec![Some("0x8086\n".to_string())];
    assert!(find_amd_card(&vendors).is_none());
}

#[test]
fn raw_readings() {
    let stats = gpu_readings(&fake_sysfs()).unwrap();
    assert_eq!(stats.busy_percent, 72);
    assert_eq!(stats.temp_millidegrees, Some(65000));
    assert_eq!(stats.power_microwatts, Some(120000000));
    assert_eq!(stats.fan_pwm, Some(178));
}

#[test]
fn missing_files_read_as_zero_and_model_fallback() {
    let f = GpuSysfs {
        gpu_busy_percent: None,
        mem_info_vram_total: None,
        mem_info_vram_used: Some("x".to_string()),
        temp1_input: None,
        power1_average: None,
        pwm1: None,
        pp_dpm_sclk: None,
        pp_dpm_mclk: Some("0: 96Mhz\n".to_string()),
        product_name: None,
        model: Some(" Navi \n".to_string()),
    };
    let g = gpu_readings(&f).unwrap();
    assert_eq!(g.busy_percent, 0);
    assert_eq!(g.memory_total_mb, 0);
    assert_eq!(g.memory_free_mb, 0);
    assert_eq!(g.temp_millidegrees, None);
    assert_eq!(g.core_clock_mhz, 0);
    assert_eq!(g.memory_clock_mhz, 0);
    assert_eq!(g.name, Some("Navi".to_string()));
}

#[test]
fn amd_card_detection() {
    let vendors = vec![None, Some("0x10de\n".to_string()), Some(" 0x1002 \n".to_string()), Some("0x1002".to_string())];
    assert_eq!(find_amd_card(&vendors), Some(2));
    assert!(is_amd_vendor("0x1002\n"));
    assert!(!is_amd_vendor("0x1002x"));
}

#[test]
fn sysfs_numbers() {
    assert_eq!(read_sysfs_u64(Some(" 42\n")), Some(42));
    assert_eq!(read_sysfs_u64(Some("-1")), None);
    assert_eq!(read_sysfs_u64(None), None);
}

#[test]
fn pp_dpm_tables() {
    assert_eq!(parse_pp_dpm("0: 500Mhz\n1: 1800Mhz *\n2: 2200Mhz"), Some(1800));
    assert_eq!(parse_pp_dpm("0: 500MHZ *"), Some(500));
    assert_eq!(parse_pp_dpm("0: 500Mhz\n1: 1800Mhz"), None);
    assert_eq!(parse_pp_dpm("*: no clock\n1: 300Mhz *"), Some(300));
    assert_eq!(parse_pp_dpm("1: Mhz *\n2: 700mhz *"), Some(700));
    assert_eq!(parse_pp_dpm("1: 99999999999999999999Mhz *\n2: 700mhz *"), None);
    assert!(pp_dpm_sliceable("1: 1800Mhz *"));
}

#[test]
fn only_the_line_ending_in_a_star_is_read() {
    assert_eq!(parse_pp_dpm("0: 500Mhz * boost\n1: 1800Mhz *"), Some(1800));
    assert_eq!(parse_pp_dpm("0: 500Mhz *x"), None);
}

#[test]
fn one_table_line_with_its_lowercase_form() {
    let line: Vec<char> = "1: 1800Mhz *".chars().collect();
    let lower: Vec<char> = "1: 1800mhz *".chars().collect();
    assert!(matches!(read_dpm_line(&line, &lower), DpmLine::Done(Some(1800))));
    let plain: Vec<char> = "1: 1800Mhz".chars().collect();
    assert!(matches!(read_dpm_line(&plain, &plain), DpmLine::Skip));
    let no_digits: Vec<char> = "1: Mhz *".chars().collect();
    let no_digits_lower: Vec<char> = "1: mhz *".chars().collect();
    assert!(matches!(read_dpm_line(&no_digits, &no_digits_lower), DpmLine::Skip));
}

#[test]
fn ascii_tables_in_any_case_read() {
    let mut f = fake_sysfs();
    f.pp_dpm_sclk = Some("0: 500MHZ\n1: 1800MHz *\n".to_string());
    let g = gpu_readings(&f).unwrap();
    assert_eq!(g.core_clock_mhz, 1800);
    assert_eq!(g.memory_clock_mhz, 1000);
}
