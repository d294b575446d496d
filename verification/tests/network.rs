use std::time::Instant;

use metrics::network::{
    net_deltas, net_growth, net_step, parse_net_dev, parse_net_dev_checked, NetCounters, NetSnapshot,
};

const NET_DEV_A: &str = "\
Inter-|   Receive                                                |  Transmit\n\
 face |bytes    packets errs drop fifo frame compressed multicast|bytes    packets errs drop fifo colls carrier compressed\n\
    lo:  100000    500    0    0    0     0          0         0   100000     500    0    0    0     0       0          0\n\
  eth0: 1000000   5000    0    0    0     0          0         0   500000    2500    0    0    0     0       0          0\n\
  wlan0:  200000   1000    0    0    0     0          0         0   100000     500    0    0    0     0       0          0\n";

const NET_DEV_B: &str = "\
Inter-|   Receive                                                |  Transmit\n\
 face |bytes    packets errs drop fifo frame compressed multicast|bytes    packets errs drop fifo colls carrier compressed\n\
    lo:  110000    510    0    0    0     0          0         0   110000     510    0    0    0     0       0          0\n\
  eth0: 1100000   5100    0    0    0     0          0         0   600000    2600    0    0    0     0       0          0\n\
  wlan0:  250000   1050    0    0    0     0          0         0   120000     520    0    0    0     0       0          0\n";

#[test]
fn test_parse_net_dev_excludes_lo() {
    let c = parse_net_dev(NET_DEV_A);
    assert_eq!(c.rx_bytes, 1000000 + 200000);
    assert_eq!(c.tx_bytes, 500000 + 100000);
    assert_eq!(c.ifaces.len(), 2);
    assert!(c.ifaces.contains(&"eth0".to_string()));
    assert!(c.ifaces.contains(&"wlan0".to_string()));
    assert!(!c.ifaces.contains(&"lo".to_string()));
}

#[test]
fn net_counter_growth() {
    let a = parse_net_dev(NET_DEV_A);
    let b = parse_net_dev(NET_DEV_B);
    assert_eq!(net_deltas(&a, &b), (150000, 120000));
    assert_eq!(net_deltas(&b, &a), (0, 0));
    assert_eq!(b.rx_bytes, 1100000 + 250000);
    assert_eq!(b.tx_bytes, 600000 + 120000);
}

#[test]
fn net_dev_headers_and_short_lines() {
    let c = parse_net_dev("eth0: 1 0 0 0 0 0 0 0 2\nwlan0: 1 0 0 0 0 0 0 0 2\n");
    assert_eq!(c.rx_bytes, 0);
    assert!(c.ifaces.is_empty());
    let c = parse_net_dev("h\nh\neth0: 1 2\nno colon here\n  eth1: 7 0 0 0 0 0 0 0 9 0\n");
    assert_eq!(c.ifaces, vec!["eth1".to_string()]);
    assert_eq!((c.rx_bytes, c.tx_bytes), (7, 9));
    let d = NetCounters::default();
    assert!(d.ifaces.is_empty());
}

#[test]
fn net_dev_overflow_detected() {
    let text = "h\nh\na: 18446744073709551615 0 0 0 0 0 0 0 0\nb: 1 0 0 0 0 0 0 0 0\n";
    assert!(parse_net_dev_checked(text).is_none());
}

#[test]
fn first_poll_reports_no_throughput() {
    let start = NetSnapshot::default();
    assert!(start.counters.is_none());
    let a = parse_net_dev(NET_DEV_A);
    assert_eq!(net_growth(&start, &a), (0, 0));
    let t = Instant::now();
    let (g, next) = net_step(&start, a, t);
    assert_eq!(g, (0, 0));
    assert_eq!(next.at, t);
    assert_eq!(next.counters.as_ref().unwrap().rx_bytes, 1200000);
    let (g, next) = net_step(&next, parse_net_dev(NET_DEV_B), Instant::now());
    assert_eq!(g, (150000, 120000));
    assert_eq!(next.counters.unwrap().ifaces.len(), 2);
}
