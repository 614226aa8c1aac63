//! Plain data shared by the sampler and its callers.
use vstd::prelude::*;

verus! {

/// Battery charging state, from the numeric code that the battery service reports.
#[derive(Clone, Copy, Debug, PartialEq, Eq, Structural)]
pub enum BatteryStatus {
    Charging,
    Discharging,
    NotCharging,
    Full,
    Unknown,
}

/// The status that a numeric battery code stands for; codes without a state map to `Unknown`.
pub open spec fn status_of_code(code: i32) -> BatteryStatus {
    if code == 2 {
        BatteryStatus::Charging
    } else if code == 3 {
        BatteryStatus::Discharging
    } else if code == 4 {
        BatteryStatus::NotCharging
    } else if code == 5 {
        BatteryStatus::Full
    } else {
        BatteryStatus::Unknown
    }
}

impl BatteryStatus {
    pub fn from_code(code: i32) -> (r: Self)
        ensures
            r == status_of_code(code),
    {
        match code {
            2 => BatteryStatus::Charging,
            3 => BatteryStatus::Discharging,
            4 => BatteryStatus::NotCharging,
            5 => BatteryStatus::Full,
            _ => BatteryStatus::Unknown,
        }
    }
}

impl Default for BatteryStatus {
    fn default() -> (r: Self)
        ensures
            r == BatteryStatus::Unknown,
    {
        BatteryStatus::Unknown
    }
}

/// Cumulative tick counters of one core: all time, and time idle or waiting on I/O.
#[derive(Clone, Copy, Debug, PartialEq, Eq, Structural)]
pub struct CpuSnap {
    pub total: u64,
    pub idle: u64,
}

impl Default for CpuSnap {
    fn default() -> (r: Self)
        ensures
            r.total == 0 && r.idle == 0,
    {
        CpuSnap { total: 0, idle: 0 }
    }
}

/// Files that hold the CPU and GPU temperatures, in thousandths of a degree.
#[derive(Debug)]
pub struct DevicePaths {
    pub cpu_temp: String,
    pub gpu_temp: String,
}

} // verus!
