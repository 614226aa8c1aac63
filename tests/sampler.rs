use asmo::cpu::CoreUsage;
use asmo::sampler::{Batch, Sampler, Section, BATCH_COMMAND};
use asmo::types::{BatteryStatus, CpuSnap};

fn feed_all(s: &mut Sampler, b: &mut Batch, lines: &[&str]) -> bool {
    for line in lines {
        if s.feed_line(b, line) {
            return true;
        }
    }
    false
}

const FIRST_TICK: &[&str] = &[
    "UPTIME 1234.56 4321.00",
    "cpu  400 0 200 3200 80 0 20 0 0 0",
    "cpu0 100 0 50 800 20 0 5 0 0 0",
    "cpu1 200 0 100 1600 40 0 10 0 0 0",
    "  level: 85",
    "  status: 2",
    "  temperature: 312",
    "NET_DATA",
    "Inter-|   Receive                                                |  Transmit",
    " face |bytes    packets errs drop fifo frame compressed multicast|bytes    packets errs drop fifo colls carrier compressed",
    "    lo:     100       1    0    0    0     0          0         0      700       1    0    0    0     0       0          0",
    "  eth0:      50       2    0    0    0     0          0         0       30       2    0    0    0     0       0          0",
    "NET_END",
    "DISPLAY_DATA",
    "mBrightness=0.5",
    "mBrightness=0.9",
    "mActiveRenderFrameRate=120.0",
    "mActiveRenderFrameRate=60.0",
    "DISPLAY_END",
    "END_OF_BATCH",
    "cpu0 999 0 0 0 0 0 0 0",
];

#[test]
fn batch_collects_every_section() {
    let mut s = Sampler::new(2);
    let mut b = s.start_batch();
    assert!(feed_all(&mut s, &mut b, FIRST_TICK));
    assert_eq!(b.uptime, "1234.56");
    assert_eq!(b.battery_level, 85);
    assert_eq!(b.battery_status, BatteryStatus::Charging);
    assert_eq!(b.battery_temp, 312);
    assert_eq!(b.brightness.as_deref(), Some("0.5"));
    assert_eq!(b.refresh_rate.as_deref(), Some("120.0"));
    assert_eq!(b.section, Section::Main);
    assert_eq!(b.usages, vec![CoreUsage { busy: 155, elapsed: 975 }, CoreUsage { busy: 310, elapsed: 1950 }]);
}

#[test]
fn network_totals_skip_loopback() {
    let mut s = Sampler::new(2);
    let mut b = s.start_batch();
    feed_all(&mut s, &mut b, FIRST_TICK);
    assert_eq!(b.rx_bytes, 50);
    assert_eq!(b.tx_bytes, 30);
}

#[test]
fn network_totals_add_up_interfaces() {
    let mut s = Sampler::new(0);
    let mut b = s.start_batch();
    let lines = [
        "NET_DATA",
        "eth0: 50 0 0 0 0 0 0 0 30 0",
        "wlan0: 7 0 0 0 0 0 0 0 3 0 0",
        "short: 1000 0 0",
        "NET_END",
        "END_OF_BATCH",
    ];
    assert!(feed_all(&mut s, &mut b, &lines));
    assert_eq!(b.rx_bytes, 57);
    assert_eq!(b.tx_bytes, 33);
}

#[test]
fn second_tick_usage_from_counter_deltas() {
    let mut s = Sampler::new(2);
    let mut b = s.start_batch();
    feed_all(&mut s, &mut b, FIRST_TICK);
    s.end_tick(&b);
    let mut b2 = s.start_batch();
    // each core starts the tick with the usage it had at the end of the last one
    assert_eq!(b2.usages, vec![CoreUsage { busy: 155, elapsed: 975 }, CoreUsage { busy: 310, elapsed: 1950 }]);
    let lines = [
        "cpu0 160 0 60 830 20 0 5 0",
        "cpu1 200 0 100 1600 40 0 10 0",
        "cpu7 1 1 1 1 1 1 1 1",
        "END_OF_BATCH",
    ];
    assert!(feed_all(&mut s, &mut b2, &lines));
    // core 0: elapsed 1075 - 975 = 100, idle 850 - 820 = 30
    assert_eq!(b2.usages[0], CoreUsage { busy: 70, elapsed: 100 });
    // core 1 did not move: it keeps its last usage
    assert_eq!(b2.usages[1], CoreUsage { busy: 310, elapsed: 1950 });
    assert_eq!(b2.uptime, "");
    assert_eq!(b2.battery_status, BatteryStatus::Unknown);
}

#[test]
fn counter_going_back_keeps_last_usage() {
    let mut s = Sampler::new(1);
    let mut b = s.start_batch();
    feed_all(&mut s, &mut b, &["cpu0 1000 0 0 900 0 0 0 0", "END_OF_BATCH"]);
    assert_eq!(b.usages[0], CoreUsage { busy: 1000, elapsed: 1900 });
    s.end_tick(&b);
    let mut b2 = s.start_batch();
    feed_all(&mut s, &mut b2, &["cpu0 10 0 0 5 0 0 0 0", "END_OF_BATCH"]);
    assert_eq!(b2.usages[0], CoreUsage { busy: 1000, elapsed: 1900 });
    s.end_tick(&b2);
    let mut b3 = s.start_batch();
    feed_all(&mut s, &mut b3, &["cpu0 20 0 0 5 0 0 0 0", "END_OF_BATCH"]);
    assert_eq!(b3.usages[0], CoreUsage { busy: 10, elapsed: 10 });
}

#[test]
fn core_without_prior_sample_is_idle() {
    let mut s = Sampler::new(2);
    let mut b = s.start_batch();
    feed_all(&mut s, &mut b, &["cpu0 0 0 0 0 0 0 0 0", "END_OF_BATCH"]);
    assert_eq!(b.usages, vec![CoreUsage::idle(), CoreUsage::idle()]);
}

#[test]
fn malformed_values_default_to_zero() {
    let mut s = Sampler::new(1);
    let mut b = s.start_batch();
    let lines = ["level: high", "status: ?", "temperature:", "UPTIME", "END_OF_BATCH"];
    assert!(feed_all(&mut s, &mut b, &lines));
    assert_eq!(b.battery_level, 0);
    assert_eq!(b.battery_status, BatteryStatus::Unknown);
    assert_eq!(b.battery_temp, 0);
    assert_eq!(b.uptime, "");
}

#[test]
fn storage_read_every_sixtieth_tick() {
    let mut s = Sampler::new(1);
    assert!(s.storage_due());
    let b = s.start_batch();
    s.end_tick(&b);
    assert!(!s.storage_due());
    for _ in 1..60 {
        let b = s.start_batch();
        s.end_tick(&b);
    }
    assert!(s.storage_due());
    assert_eq!(s.core_count(), 1);
}

#[test]
fn command_ends_with_sentinel() {
    assert!(BATCH_COMMAND.ends_with("echo 'END_OF_BATCH'\n"));
    assert!(BATCH_COMMAND.contains("echo NET_DATA"));
    let _ = CpuSnap::default();
}
