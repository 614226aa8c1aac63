use asmo::cpu::{parse_cpu_stat, CoreUsage};
use asmo::types::{BatteryStatus, CpuSnap};

#[test]
fn cpu_stat_sums_first_eight_fields() {
    // user nice system idle iowait irq softirq steal guest guest_nice
    let (total, idle) = parse_cpu_stat("100 0 50 800 20 0 5 0 7 9");
    assert_eq!(total, 975);
    assert_eq!(idle, 820);
}

#[test]
fn cpu_stat_skips_malformed_fields() {
    let (total, idle) = parse_cpu_stat("  10 x 5   30 4");
    assert_eq!(total, 49);
    assert_eq!(idle, 34);
}

#[test]
fn cpu_stat_of_empty_text_is_zero() {
    assert_eq!(parse_cpu_stat(""), (0, 0));
}

#[test]
fn cpu_stat_saturates_on_overflow() {
    let (total, idle) = parse_cpu_stat("18446744073709551615 1 0 18446744073709551615 1");
    assert_eq!(total, u64::MAX);
    assert_eq!(idle, u64::MAX);
}

#[test]
fn usage_between_growing_counters() {
    let prev = CpuSnap { total: 1000, idle: 800 };
    let cur = CpuSnap { total: 1100, idle: 850 };
    assert_eq!(cur.usage_since(&prev), CoreUsage { busy: 50, elapsed: 100 });
}

#[test]
fn usage_with_counter_going_back_is_zero() {
    let prev = CpuSnap { total: 2000, idle: 100 };
    let cur = CpuSnap { total: 1000, idle: 50 };
    assert_eq!(cur.usage_since(&prev), CoreUsage { busy: 0, elapsed: 0 });
}

#[test]
fn usage_never_exceeds_elapsed_when_idle_jumps() {
    let prev = CpuSnap { total: 100, idle: 0 };
    let cur = CpuSnap { total: 101, idle: 50 };
    let u = cur.usage_since(&prev);
    assert_eq!(u, CoreUsage { busy: 0, elapsed: 1 });
    assert!(u.busy <= u.elapsed);
}

#[test]
fn usage_fully_busy() {
    let prev = CpuSnap { total: 10, idle: 5 };
    let cur = CpuSnap { total: 30, idle: 5 };
    assert_eq!(cur.usage_since(&prev), CoreUsage { busy: 20, elapsed: 20 });
}

#[test]
fn battery_codes_map_to_states() {
    assert_eq!(BatteryStatus::from_code(2), BatteryStatus::Charging);
    assert_eq!(BatteryStatus::from_code(3), BatteryStatus::Discharging);
    assert_eq!(BatteryStatus::from_code(4), BatteryStatus::NotCharging);
    assert_eq!(BatteryStatus::from_code(5), BatteryStatus::Full);
    assert_eq!(BatteryStatus::from_code(1), BatteryStatus::Unknown);
    assert_eq!(BatteryStatus::from_code(-7), BatteryStatus::Unknown);
    assert_eq!(BatteryStatus::default(), BatteryStatus::Unknown);
}
