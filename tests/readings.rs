use asmo::readings::{parse_gpu_busy, parse_meminfo, GpuBusy, MemInfo};

#[test]
fn meminfo_fields_in_kibibytes() {
    let content = "MemTotal:        7812345 kB\nMemFree:          100000 kB\nMemAvailable:    3000000 kB\nSwapTotal:       2097148 kB\nSwapFree:        1048576 kB\n";
    let m = parse_meminfo(content);
    assert_eq!(
        m,
        MemInfo {
            total_kb: 7812345,
            available_kb: 3000000,
            swap_total_kb: 2097148,
            swap_free_kb: 1048576,
        }
    );
    assert_eq!(m.used_kb(), 4812345);
    assert_eq!(m.swap_used_kb(), 1048572);
}

#[test]
fn meminfo_missing_fields_are_zero() {
    let m = parse_meminfo("MemTotal: 1000 kB\r\nSwapTotal: junk kB\n");
    assert_eq!(m.total_kb, 1000);
    assert_eq!(m.available_kb, 0);
    assert_eq!(m.swap_total_kb, 0);
    assert_eq!(m.used_kb(), 1000);
    let low = MemInfo { total_kb: 5, available_kb: 9, swap_total_kb: 1, swap_free_kb: 2 };
    assert_eq!(low.used_kb(), 0);
    assert_eq!(low.swap_used_kb(), 0);
}

#[test]
fn gpu_busy_counts() {
    assert_eq!(parse_gpu_busy("  3400 10000\n"), GpuBusy { busy: 3400, total: 10000 });
    assert_eq!(parse_gpu_busy(""), GpuBusy { busy: 0, total: 0 });
    assert_eq!(parse_gpu_busy("x 7"), GpuBusy { busy: 0, total: 7 });
}
