use metrics::battery::{battery_stats, find_battery};

#[test]
fn test_discharging() {
    let s = battery_stats(true, Some("85\n"), Some("Discharging\n"));
    assert!(s.has_battery);
    assert_eq!(s.percent, 85);
    assert!(!s.is_charging);
}

#[test]
fn test_charging() {
    let s = battery_stats(true, Some("60\n"), Some("Charging\n"));
    assert!(s.has_battery);
    assert!(s.is_charging);
}

#[test]
fn test_no_battery() {
    let s = battery_stats(false, None, None);
    assert!(!s.has_battery);
    assert_eq!(s.percent, 0);
    assert!(!s.is_charging);
}

#[test]
fn full_counts_as_charging_and_bad_capacity_is_zero() {
    let s = battery_stats(true, Some("abc"), Some(" Full \n"));
    assert!(s.is_charging);
    assert_eq!(s.percent, 0);
    let s = battery_stats(true, None, None);
    assert!(s.has_battery);
    assert_eq!(s.percent, 0);
    assert!(!s.is_charging);
}

#[test]
fn battery_directory_choice() {
    let names = |v: &[&str]| v.iter().map(|s| s.to_string()).collect::<Vec<String>>();
    assert_eq!(find_battery(&names(&["AC", "BAT1", "BAT0"])), Some("BAT0".to_string()));
    assert_eq!(find_battery(&names(&["BATX", "BAT1"])), Some("BAT1".to_string()));
    assert_eq!(find_battery(&names(&["AC", "BATT", "BATX"])), Some("BATT".to_string()));
    assert_eq!(find_battery(&names(&["AC", "hidpp"])), None);
}
