//! Readings taken from plain system files: memory totals and GPU busy time.
use vstd::prelude::*;
use crate::text::{first_token, first_word, has_prefix, parse_u64, runs, split_runs, strip_prefix, tokens, u64_value, views, Delim};

verus! {

/// Value of a `Key: value unit` line: the first token after the key, as an integer.
pub open spec fn value_after(line: Seq<char>, key: Seq<char>) -> u64 {
    match u64_value(first_token(line.skip(key.len() as int))) {
        Some(v) => v,
        None => 0,
    }
}

/// The value on the last of `lines` that starts with `key`; zero when none does.
pub open spec fn keyed_value(lines: Seq<Seq<char>>, key: Seq<char>) -> u64
    decreases lines.len(),
{
    if lines.len() == 0 {
        0
    } else if has_prefix(lines.last(), key) {
        value_after(lines.last(), key)
    } else {
        keyed_value(lines.drop_last(), key)
    }
}

/// Memory and swap sizes from `/proc/meminfo`, in kibibytes.
#[derive(Clone, Copy, Debug, PartialEq, Eq, Structural)]
pub struct MemInfo {
    pub total_kb: u64,
    pub available_kb: u64,
    pub swap_total_kb: u64,
    pub swap_free_kb: u64,
}

impl MemInfo {
    /// Memory in use: total less available, zero where available is the larger.
    pub fn used_kb(&self) -> (r: u64)
        ensures
            r == (if self.total_kb >= self.available_kb {
                self.total_kb - self.available_kb
            } else {
                0
            }),
    {
        self.total_kb.saturating_sub(self.available_kb)
    }

    /// Swap in use: total less free, zero where free is the larger.
    pub fn swap_used_kb(&self) -> (r: u64)
        ensures
            r == (if self.swap_total_kb >= self.swap_free_kb {
                self.swap_total_kb - self.swap_free_kb
            } else {
                0
            }),
    {
        self.swap_total_kb.saturating_sub(self.swap_free_kb)
    }
}

fn value_of_line(line: &str, key: &str) -> (r: Option<u64>)
    ensures
        r is Some <==> has_prefix(line@, key@),
        r matches Some(v) ==> v == value_after(line@, key@),
{
    match strip_prefix(line, key) {
        Some(rest) => {
            let w = first_word(rest);
            Some(
                match parse_u64(w.as_str()) {
                    Some(v) => v,
                    None => 0,
                },
            )
        },
        None => None,
    }
}

/// Reads the contents of `/proc/meminfo`.
pub fn parse_meminfo(content: &str) -> (m: MemInfo)
    ensures
        m.total_kb == keyed_value(runs(content@, Delim::Char('\n')), "MemTotal:"@),
        m.available_kb == keyed_value(runs(content@, Delim::Char('\n')), "MemAvailable:"@),
        m.swap_total_kb == keyed_value(runs(content@, Delim::Char('\n')), "SwapTotal:"@),
        m.swap_free_kb == keyed_value(runs(content@, Delim::Char('\n')), "SwapFree:"@),
{
    let lines = split_runs(content, Delim::Char('\n'));
    let ghost ls = views(lines@);
    let mut m = MemInfo { total_kb: 0, available_kb: 0, swap_total_kb: 0, swap_free_kb: 0 };
    let mut i: usize = 0;
    while i < lines.len()
        invariant
            i <= lines@.len(),
            ls == views(lines@),
            m.total_kb == keyed_value(ls.take(i as int), "MemTotal:"@),
            m.available_kb == keyed_value(ls.take(i as int), "MemAvailable:"@),
            m.swap_total_kb == keyed_value(ls.take(i as int), "SwapTotal:"@),
            m.swap_free_kb == keyed_value(ls.take(i as int), "SwapFree:"@),
        decreases lines@.len() - i,
    {
        let line = lines[i].as_str();
        assert(ls.take(i + 1).drop_last() =~= ls.take(i as int));
        assert(ls.take(i + 1).last() == line@);
        if let Some(v) = value_of_line(line, "MemTotal:") {
            m.total_kb = v;
        }
        if let Some(v) = value_of_line(line, "MemAvailable:") {
            m.available_kb = v;
        }
        if let Some(v) = value_of_line(line, "SwapTotal:") {
            m.swap_total_kb = v;
        }
        if let Some(v) = value_of_line(line, "SwapFree:") {
            m.swap_free_kb = v;
        }
        i = i + 1;
    }
    assert(ls.take(i as int) =~= ls);
    m
}

/// Busy time and total time of the GPU over its last sampling window.
#[derive(Clone, Copy, Debug, PartialEq, Eq, Structural)]
pub struct GpuBusy {
    pub busy: u64,
    pub total: u64,
}

/// Value of the `i`-th token; a missing or malformed one counts as zero.
pub open spec fn token_value(s: Seq<char>, i: int) -> u64 {
    if 0 <= i < tokens(s).len() {
        match u64_value(tokens(s)[i]) {
            Some(v) => v,
            None => 0,
        }
    } else {
        0
    }
}

/// Reads the GPU's `gpubusy` file: busy time, then total time.
pub fn parse_gpu_busy(content: &str) -> (g: GpuBusy)
    ensures
        g.busy == token_value(content@, 0),
        g.total == token_value(content@, 1),
{
    let toks = split_runs(content, Delim::Whitespace);
    let mut g = GpuBusy { busy: 0, total: 0 };
    if toks.len() > 0 {
        assert(toks@[0]@ == views(toks@)[0]);
        if let Some(v) = parse_u64(toks[0].as_str()) {
            g.busy = v;
        }
    }
    if toks.len() > 1 {
        assert(toks@[1]@ == views(toks@)[1]);
        if let Some(v) = parse_u64(toks[1].as_str()) {
            g.total = v;
        }
    }
    g
}

} // verus!
