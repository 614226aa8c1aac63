//! Per-core counters from a `/proc/stat` line, and the utilisation between two readings.
use vstd::prelude::*;
use crate::text::{split_runs, parse_u64, tokens, u64_value, views, Delim};
use crate::types::CpuSnap;

verus! {

/// Value of a counter field; a field that does not parse counts as zero.
pub open spec fn field_value(t: Seq<char>) -> nat {
    match u64_value(t) {
        Some(v) => v as nat,
        None => 0,
    }
}

/// The counter fields that are read: at most the first eight tokens.
pub open spec fn stat_fields(rest: Seq<char>) -> Seq<Seq<char>> {
    let t = tokens(rest);
    if t.len() > 8 {
        t.take(8)
    } else {
        t
    }
}

pub open spec fn counter_sum(f: Seq<Seq<char>>, n: int) -> nat
    decreases n,
{
    if n <= 0 || n > f.len() {
        0
    } else {
        counter_sum(f, n - 1) + field_value(f[n - 1])
    }
}

/// Sum of all the fields read.
pub open spec fn stat_total(rest: Seq<char>) -> nat {
    counter_sum(stat_fields(rest), stat_fields(rest).len() as int)
}

/// Idle plus I/O wait: fields 3 and 4.
pub open spec fn stat_idle(rest: Seq<char>) -> nat {
    let f = stat_fields(rest);
    (if f.len() > 3 {
        field_value(f[3])
    } else {
        0
    }) + (if f.len() > 4 {
        field_value(f[4])
    } else {
        0
    })
}

/// `n`, or `u64::MAX` where it does not fit.
pub open spec fn saturate(n: nat) -> u64 {
    if n > u64::MAX {
        u64::MAX
    } else {
        n as u64
    }
}

/// Reads `(total, idle)` from the fields after a per-core tag of `/proc/stat`.
pub fn parse_cpu_stat(rest: &str) -> (r: (u64, u64))
    ensures
        r == (saturate(stat_total(rest@)), saturate(stat_idle(rest@))),
{
    let toks = split_runs(rest, Delim::Whitespace);
    let ghost f = stat_fields(rest@);
    let n: usize = if toks.len() > 8 {
        8
    } else {
        toks.len()
    };
    assert(f =~= views(toks@).take(n as int));
    let mut total: u64 = 0;
    let mut idle: u64 = 0;
    let mut i: usize = 0;
    while i < n
        invariant
            i <= n <= toks.len(),
            n == f.len(),
            f == views(toks@).take(n as int),
            total == saturate(counter_sum(f, i as int)),
            idle == saturate(
                (if i > 3 {
                    field_value(f[3])
                } else {
                    0
                }) + (if i > 4 {
                    field_value(f[4])
                } else {
                    0
                }),
            ),
        decreases n - i,
    {
        let v = match parse_u64(toks[i].as_str()) {
            Some(v) => v,
            None => 0,
        };
        assert(f[i as int] == toks@[i as int]@);
        assert(v as nat == field_value(f[i as int]));
        total = total.saturating_add(v);
        if i == 3 || i == 4 {
            idle = idle.saturating_add(v);
        }
        i = i + 1;
    }
    (total, idle)
}

/// Busy ticks and elapsed ticks of a core between two readings.
#[derive(Clone, Copy, Debug, PartialEq, Eq, Structural)]
pub struct CoreUsage {
    pub busy: u64,
    pub elapsed: u64,
}

/// `a - b`, or zero where `b` is the larger.
pub open spec fn floor_sub(a: u64, b: u64) -> u64 {
    if a >= b {
        (a - b) as u64
    } else {
        0
    }
}

/// Utilisation between two readings. A counter that appears to have gone back
/// counts as not having moved, and busy time never exceeds elapsed time.
pub open spec fn usage_between(prev: CpuSnap, cur: CpuSnap) -> CoreUsage {
    let elapsed = floor_sub(cur.total, prev.total);
    let idle = floor_sub(cur.idle, prev.idle);
    CoreUsage { busy: floor_sub(elapsed, idle), elapsed }
}

/// Usage in whole percent, rounded down; zero when no time elapsed.
pub open spec fn percent_floor(u: CoreUsage) -> int {
    if u.elapsed == 0 {
        0
    } else {
        (u.busy * 100) as int / u.elapsed as int
    }
}

impl CoreUsage {
    pub fn idle() -> (r: CoreUsage)
        ensures
            r.busy == 0 && r.elapsed == 0,
    {
        CoreUsage { busy: 0, elapsed: 0 }
    }
}

impl CpuSnap {
    /// Utilisation from the earlier reading `prev` to this one.
    pub fn usage_since(&self, prev: &CpuSnap) -> (u: CoreUsage)
        ensures
            u == usage_between(*prev, *self),
    {
        let elapsed = self.total.saturating_sub(prev.total);
        let idle = self.idle.saturating_sub(prev.idle);
        CoreUsage { busy: elapsed.saturating_sub(idle), elapsed }
    }
}

/// Usage stays within 0..=100 percent for any two readings, also where a
/// counter went back; with counters that only grew (idle by no more than the
/// total), busy time is exactly the growth of the total less that of idle.
pub proof fn lemma_usage_in_range(prev: CpuSnap, cur: CpuSnap)
    ensures
        usage_between(prev, cur).busy <= usage_between(prev, cur).elapsed,
        0 <= percent_floor(usage_between(prev, cur)) <= 100,
        prev.total <= cur.total && prev.idle <= cur.idle && cur.idle - prev.idle <= cur.total
            - prev.total ==> usage_between(prev, cur).busy == (cur.total - prev.total) - (cur.idle
            - prev.idle),
{
    let u = usage_between(prev, cur);
    if u.elapsed > 0 {
        let b = u.busy as int;
        let e = u.elapsed as int;
        assert(0 <= (b * 100) / e <= 100) by (nonlinear_arith)
            requires
                0 <= b <= e,
                e > 0,
        ;
    }
}

} // verus!
