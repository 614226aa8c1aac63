//! The sampler's decisions: which slow readings are due on a tick, and how the
//! lines of one response to the batched privileged command update the per-core
//! counters and the values of the tick.
use vstd::prelude::*;
use crate::cpu::{
    field_value, floor_sub, lemma_usage_in_range, parse_cpu_stat, saturate, stat_idle, stat_total,
    usage_between, CoreUsage,
};
use crate::text::{
    first_token, first_word, has_prefix, i32_value, lemma_run_end_bounds, parse_i32, parse_u64,
    parse_usize, run_end,
    same_text, split_once, split_runs, strip_prefix, tokens, trim, trimmed,
    usize_value, views, Delim,
};
use crate::types::{status_of_code, BatteryStatus, CpuSnap};

verus! {

/// Ticks between two readings of the storage space.
pub const STORAGE_TICK_INTERVAL: u64 = 60;

/// The command written to the privileged shell on each tick. Its markers
/// delimit the network and display sections, and its last line ends the response.
pub const BATCH_COMMAND: &'static str = "echo UPTIME $(cat /proc/uptime); cat /proc/stat; dumpsys battery | grep -E 'level|status|temp'; echo NET_DATA; cat /proc/net/dev; echo NET_END; echo DISPLAY_DATA; dumpsys display | grep -oE 'mBrightness=[0-9.]+|mActiveRenderFrameRate=[0-9.]+'; echo DISPLAY_END; echo 'END_OF_BATCH'\n";

/// The part of the response that the next line belongs to.
#[derive(Clone, Copy, Debug, PartialEq, Eq, Structural)]
pub enum Section {
    Main,
    Network,
    Display,
}

/// What the response to one batched command has reported so far.
#[derive(Debug)]
pub struct Batch {
    pub section: Section,
    /// Text of the uptime in seconds, a decimal number; empty when none came.
    pub uptime: String,
    pub battery_level: i32,
    pub battery_status: BatteryStatus,
    /// Battery temperature in tenths of a degree.
    pub battery_temp: i32,
    /// Bytes received and sent over all interfaces but the loopback one.
    pub rx_bytes: u64,
    pub tx_bytes: u64,
    /// Text of the first brightness and of the first refresh rate reported.
    pub brightness: Option<String>,
    pub refresh_rate: Option<String>,
    /// Utilisation of each core, by core position.
    pub usages: Vec<CoreUsage>,
}

pub struct BatchView {
    pub section: Section,
    pub uptime: Seq<char>,
    pub battery_level: i32,
    pub battery_status: BatteryStatus,
    pub battery_temp: i32,
    pub rx_bytes: u64,
    pub tx_bytes: u64,
    pub brightness: Option<Seq<char>>,
    pub refresh_rate: Option<Seq<char>>,
    pub usages: Seq<CoreUsage>,
}

pub open spec fn text_view(o: Option<String>) -> Option<Seq<char>> {
    match o {
        Some(s) => Some(s@),
        None => None,
    }
}

impl View for Batch {
    type V = BatchView;

    open spec fn view(&self) -> BatchView {
        BatchView {
            section: self.section,
            uptime: self.uptime@,
            battery_level: self.battery_level,
            battery_status: self.battery_status,
            battery_temp: self.battery_temp,
            rx_bytes: self.rx_bytes,
            tx_bytes: self.tx_bytes,
            brightness: text_view(self.brightness),
            refresh_rate: text_view(self.refresh_rate),
            usages: self.usages@,
        }
    }
}

/// Every core's busy time is within its elapsed time: usage stays within 0..=100 percent.
pub open spec fn usages_in_range(us: Seq<CoreUsage>) -> bool {
    forall|i: int| 0 <= i < us.len() ==> (#[trigger] us[i]).busy <= us[i].elapsed
}

/// The state of a batch before its first line: every value zero or absent,
/// and each core's usage carried over from the last tick.
pub open spec fn fresh_batch(last: Seq<CoreUsage>) -> BatchView {
    BatchView {
        section: Section::Main,
        uptime: seq![],
        battery_level: 0,
        battery_status: BatteryStatus::Unknown,
        battery_temp: 0,
        rx_bytes: 0,
        tx_bytes: 0,
        brightness: None,
        refresh_rate: None,
        usages: last,
    }
}

pub open spec fn i32_or_zero(o: Option<i32>) -> i32 {
    match o {
        Some(v) => v,
        None => 0,
    }
}

/// Name of the interface of a `/proc/net/dev` line: the text before its first colon.
pub open spec fn interface_of(t: Seq<char>) -> Option<Seq<char>> {
    let k = run_end(t, Delim::Char(':'), 0);
    if k < t.len() {
        Some(trimmed(t.take(k)))
    } else {
        None
    }
}

/// Bytes received and sent that a line of the network section adds: fields 0
/// and 8 after the colon, for a line with at least ten fields whose interface
/// is not the loopback one.
pub open spec fn net_line_counts(t: Seq<char>) -> (nat, nat) {
    let k = run_end(t, Delim::Char(':'), 0);
    if k >= t.len() {
        (0, 0)
    } else {
        let f = tokens(t.skip(k + 1));
        if trimmed(t.take(k)) == "lo"@ || f.len() < 10 {
            (0, 0)
        } else {
            (field_value(f[0]), field_value(f[8]))
        }
    }
}

pub open spec fn net_step(b: BatchView, t: Seq<char>) -> BatchView {
    let (rx, tx) = net_line_counts(t);
    BatchView {
        rx_bytes: saturate((b.rx_bytes + rx) as nat),
        tx_bytes: saturate((b.tx_bytes + tx) as nat),
        ..b
    }
}

/// A display line sets a value the first time it is reported only.
pub open spec fn display_step(b: BatchView, t: Seq<char>) -> BatchView {
    if has_prefix(t, "mBrightness="@) {
        if b.brightness is None {
            BatchView { brightness: Some(t.skip("mBrightness="@.len() as int)), ..b }
        } else {
            b
        }
    } else if has_prefix(t, "mActiveRenderFrameRate="@) {
        if b.refresh_rate is None {
            BatchView {
                refresh_rate: Some(t.skip("mActiveRenderFrameRate="@.len() as int)),
                ..b
            }
        } else {
            b
        }
    } else {
        b
    }
}

/// First word of a line of the main section, and what follows the whitespace after it.
pub open spec fn tag_of(t: Seq<char>) -> (Seq<char>, Seq<char>) {
    let k = run_end(t, Delim::Whitespace, 0);
    if k < t.len() {
        (t.take(k), t.skip(k + 1))
    } else {
        (t, seq![])
    }
}

/// A per-core line `cpuN ...` with `N` a core position: the new counters of that core.
pub open spec fn core_line(snaps: Seq<CpuSnap>, tag: Seq<char>, rest: Seq<char>) -> Option<
    (int, CpuSnap),
> {
    if tag != "cpu"@ && has_prefix(tag, "cpu"@) {
        match usize_value(tag.skip(3)) {
            Some(idx) => if idx < snaps.len() {
                Some(
                    (
                        idx as int,
                        CpuSnap { total: saturate(stat_total(rest)), idle: saturate(stat_idle(rest)) },
                    ),
                )
            } else {
                None
            },
            None => None,
        }
    } else {
        None
    }
}

pub open spec fn main_step(snaps: Seq<CpuSnap>, b: BatchView, t: Seq<char>) -> (
    Seq<CpuSnap>,
    BatchView,
) {
    let (tag, rest) = tag_of(t);
    if tag == "UPTIME"@ {
        (snaps, BatchView { uptime: first_token(rest), ..b })
    } else if tag == "level:"@ {
        (snaps, BatchView { battery_level: i32_or_zero(i32_value(trimmed(rest))), ..b })
    } else if tag == "status:"@ {
        (
            snaps,
            BatchView {
                battery_status: status_of_code(i32_or_zero(i32_value(trimmed(rest)))),
                ..b
            },
        )
    } else if tag == "temperature:"@ {
        (snaps, BatchView { battery_temp: i32_or_zero(i32_value(first_token(rest))), ..b })
    } else {
        match core_line(snaps, tag, rest) {
            Some((idx, snap)) => {
                let u = usage_between(snaps[idx], snap);
                (
                    snaps.update(idx, snap),
                    if u.elapsed > 0 {
                        BatchView { usages: b.usages.update(idx, u), ..b }
                    } else {
                        b
                    },
                )
            },
            None => (snaps, b),
        }
    }
}

/// How one response line, whitespace trimmed, changes the counters and the
/// batch, and whether it ends the response.
pub open spec fn batch_step(snaps: Seq<CpuSnap>, b: BatchView, line: Seq<char>) -> (
    Seq<CpuSnap>,
    BatchView,
    bool,
) {
    let t = trimmed(line);
    if t == "END_OF_BATCH"@ {
        (snaps, b, true)
    } else if t == "NET_DATA"@ {
        (snaps, BatchView { section: Section::Network, ..b }, false)
    } else if t == "NET_END"@ || t == "DISPLAY_END"@ {
        (snaps, BatchView { section: Section::Main, ..b }, false)
    } else if t == "DISPLAY_DATA"@ {
        (snaps, BatchView { section: Section::Display, ..b }, false)
    } else {
        match b.section {
            Section::Network => (snaps, net_step(b, t), false),
            Section::Display => (snaps, display_step(b, t), false),
            Section::Main => {
                let (s2, b2) = main_step(snaps, b, t);
                (s2, b2, false)
            },
        }
    }
}

/// The sampler's own state: the last counters and the last usage of each
/// core, by core position, and the number of ticks done.
pub struct Sampler {
    snaps: Vec<CpuSnap>,
    usages: Vec<CoreUsage>,
    tick: u64,
}

/// `n` idle cores.
pub open spec fn idle_usages(n: nat) -> Seq<CoreUsage> {
    Seq::new(n, |i: int| CoreUsage { busy: 0, elapsed: 0 })
}

impl Sampler {
    pub closed spec fn counters(&self) -> Seq<CpuSnap> {
        self.snaps@
    }

    /// Usage of each core as the last closed tick left it; idle before any.
    pub closed spec fn last_usages(&self) -> Seq<CoreUsage> {
        self.usages@
    }

    pub closed spec fn ticks(&self) -> u64 {
        self.tick
    }

    /// One usage per core, each within its elapsed time.
    pub open spec fn wf(&self) -> bool {
        &&& self.last_usages().len() == self.counters().len()
        &&& usages_in_range(self.last_usages())
    }

    /// A sampler for `core_count` cores that has seen no counters yet.
    pub fn new(core_count: usize) -> (s: Sampler)
        ensures
            s.wf(),
            s.counters() == Seq::new(core_count as nat, |i: int| CpuSnap { total: 0, idle: 0 }),
            s.last_usages() == idle_usages(core_count as nat),
            s.ticks() == 0,
    {
        let mut snaps: Vec<CpuSnap> = Vec::new();
        let mut usages: Vec<CoreUsage> = Vec::new();
        let mut i: usize = 0;
        while i < core_count
            invariant
                i <= core_count,
                snaps@ == Seq::new(i as nat, |k: int| CpuSnap { total: 0, idle: 0 }),
                usages@ == idle_usages(i as nat),
            decreases core_count - i,
        {
            snaps.push(CpuSnap { total: 0, idle: 0 });
            usages.push(CoreUsage::idle());
            i = i + 1;
            assert(snaps@ =~= Seq::new(i as nat, |k: int| CpuSnap { total: 0, idle: 0 }));
            assert(usages@ =~= idle_usages(i as nat));
        }
        Sampler { snaps, usages, tick: 0 }
    }

    pub fn core_count(&self) -> (n: usize)
        ensures
            n == self.counters().len(),
    {
        self.snaps.len()
    }

    /// Whether this tick reads the storage space, which is read on every
    /// `STORAGE_TICK_INTERVAL`-th tick, the first included.
    pub fn storage_due(&self) -> (r: bool)
        ensures
            r == (self.ticks() % STORAGE_TICK_INTERVAL == 0),
    {
        self.tick % STORAGE_TICK_INTERVAL == 0
    }

    /// Closes a tick: the usages of its batch become those carried into the next.
    pub fn end_tick(&mut self, batch: &Batch)
        requires
            old(self).wf(),
            batch.usages@.len() == old(self).counters().len(),
            usages_in_range(batch@.usages),
        ensures
            final(self).wf(),
            final(self).counters() == old(self).counters(),
            final(self).last_usages() == batch@.usages,
            final(self).ticks() == (old(self).ticks() + 1) % 0x1_0000_0000_0000_0000,
    {
        let mut usages: Vec<CoreUsage> = Vec::new();
        let mut i: usize = 0;
        while i < batch.usages.len()
            invariant
                i <= batch.usages@.len(),
                usages@ == batch.usages@.take(i as int),
            decreases batch.usages@.len() - i,
        {
            usages.push(batch.usages[i]);
            i = i + 1;
            assert(usages@ =~= batch.usages@.take(i as int));
        }
        assert(usages@ =~= batch.usages@);
        self.usages = usages;
        self.tick = self.tick.wrapping_add(1);
    }

    /// An empty batch for this tick, each core's usage carried over from the last.
    pub fn start_batch(&self) -> (b: Batch)
        requires
            self.wf(),
        ensures
            b@ == fresh_batch(self.last_usages()),
            b.usages@.len() == self.counters().len(),
            usages_in_range(b@.usages),
    {
        let mut usages: Vec<CoreUsage> = Vec::new();
        let mut i: usize = 0;
        while i < self.usages.len()
            invariant
                i <= self.usages@.len(),
                usages@ == self.usages@.take(i as int),
            decreases self.usages@.len() - i,
        {
            usages.push(self.usages[i]);
            i = i + 1;
            assert(usages@ =~= self.usages@.take(i as int));
        }
        assert(usages@ =~= self.usages@);
        Batch {
            section: Section::Main,
            uptime: String::new(),
            battery_level: 0,
            battery_status: BatteryStatus::Unknown,
            battery_temp: 0,
            rx_bytes: 0,
            tx_bytes: 0,
            brightness: None,
            refresh_rate: None,
            usages,
        }
    }

    /// Takes one line of the response into account; returns whether it ends the response.
    pub fn feed_line(&mut self, batch: &mut Batch, line: &str) -> (done: bool)
        requires
            old(batch).usages@.len() == old(self).counters().len(),
            usages_in_range(old(batch)@.usages),
        ensures
            usages_in_range(final(batch)@.usages),
            (final(self).counters(), final(batch)@, done) == batch_step(
                old(self).counters(),
                old(batch)@,
                line@,
            ),
            final(self).ticks() == old(self).ticks(),
            final(self).last_usages() == old(self).last_usages(),
            final(self).counters().len() == old(self).counters().len(),
            final(batch).usages@.len() == final(self).counters().len(),
    {
        let t = trim(line);
        if same_text(t, "END_OF_BATCH") {
            return true;
        }
        if same_text(t, "NET_DATA") {
            batch.section = Section::Network;
        } else if same_text(t, "NET_END") || same_text(t, "DISPLAY_END") {
            batch.section = Section::Main;
        } else if same_text(t, "DISPLAY_DATA") {
            batch.section = Section::Display;
        } else {
            match batch.section {
                Section::Network => add_net_line(batch, t),
                Section::Display => take_display_line(batch, t),
                Section::Main => self.take_main_line(batch, t),
            }
        }
        false
    }

    fn take_main_line(&mut self, batch: &mut Batch, t: &str)
        requires
            old(batch).usages@.len() == old(self).counters().len(),
            usages_in_range(old(batch)@.usages),
        ensures
            usages_in_range(final(batch)@.usages),
            (final(self).counters(), final(batch)@) == main_step(
                old(self).counters(),
                old(batch)@,
                t@,
            ),
            final(self).ticks() == old(self).ticks(),
            final(self).last_usages() == old(self).last_usages(),
            final(self).counters().len() == old(self).counters().len(),
            final(batch).usages@.len() == final(self).counters().len(),
    {
        let (tag, rest) = match split_once(t, Delim::Whitespace) {
            Some((a, b)) => (a, b),
            None => (t, t.substring_char(0, 0)),
        };
        assert((tag@, rest@) == tag_of(t@)) by {
            assert(t@.subrange(0, 0) =~= Seq::<char>::empty());
        }
        if same_text(tag, "UPTIME") {
            batch.uptime = first_word(rest);
        } else if same_text(tag, "level:") {
            batch.battery_level = match parse_i32(trim(rest)) {
                Some(v) => v,
                None => 0,
            };
        } else if same_text(tag, "status:") {
            let code = match parse_i32(trim(rest)) {
                Some(v) => v,
                None => 0,
            };
            batch.battery_status = BatteryStatus::from_code(code);
        } else if same_text(tag, "temperature:") {
            let w = first_word(rest);
            batch.battery_temp = match parse_i32(w.as_str()) {
                Some(v) => v,
                None => 0,
            };
        } else if !same_text(tag, "cpu") {
            proof {
                reveal_strlit("cpu");
            }
            if let Some(num) = strip_prefix(tag, "cpu") {
                if let Some(idx) = parse_usize(num) {
                    if idx < self.snaps.len() {
                        let (total, idle) = parse_cpu_stat(rest);
                        let snap = CpuSnap { total, idle };
                        let u = snap.usage_since(&self.snaps[idx]);
                        proof {
                            lemma_usage_in_range(self.snaps@[idx as int], snap);
                        }
                        if u.elapsed > 0 {
                            batch.usages.set(idx, u);
                        }
                        self.snaps.set(idx, snap);
                    }
                }
            }
        }
    }
}

/// Adds the byte counts of a line of the network section.
fn add_net_line(batch: &mut Batch, t: &str)
    ensures
        final(batch)@ == net_step(old(batch)@, t@),
{
    if let Some((iface, rest)) = split_once(t, Delim::Char(':')) {
        if !same_text(trim(iface), "lo") {
            let fields = split_runs(rest, Delim::Whitespace);
            if fields.len() >= 10 {
                let rx = match parse_u64(fields[0].as_str()) {
                    Some(v) => v,
                    None => 0,
                };
                let tx = match parse_u64(fields[8].as_str()) {
                    Some(v) => v,
                    None => 0,
                };
                assert(fields@[0]@ == views(fields@)[0]);
                assert(fields@[8]@ == views(fields@)[8]);
                batch.rx_bytes = batch.rx_bytes.saturating_add(rx);
                batch.tx_bytes = batch.tx_bytes.saturating_add(tx);
                return;
            }
        }
    }
}

/// Takes the first brightness and the first refresh rate that the display section reports.
fn take_display_line(batch: &mut Batch, t: &str)
    ensures
        final(batch)@ == display_step(old(batch)@, t@),
{
    if let Some(v) = strip_prefix(t, "mBrightness=") {
        if batch.brightness.is_none() {
            batch.brightness = Some(v.to_owned());
        }
    } else if let Some(v) = strip_prefix(t, "mActiveRenderFrameRate=") {
        if batch.refresh_rate.is_none() {
            batch.refresh_rate = Some(v.to_owned());
        }
    }
}

/// Lines of the loopback interface are not counted: inside the network
/// section such a line leaves the counters and the batch as they were.
pub proof fn lemma_loopback_not_counted(snaps: Seq<CpuSnap>, b: BatchView, line: Seq<char>)
    requires
        b.section == Section::Network,
        interface_of(trimmed(line)) == Some("lo"@),
    ensures
        batch_step(snaps, b, line) == (snaps, b, false),
{
    let t = trimmed(line);
    let k = run_end(t, Delim::Char(':'), 0);
    lemma_run_end_bounds(t, Delim::Char(':'), 0);
    assert(t[k] == ':');
    reveal_strlit("END_OF_BATCH");
    reveal_strlit("NET_DATA");
    reveal_strlit("NET_END");
    reveal_strlit("DISPLAY_END");
    reveal_strlit("DISPLAY_DATA");
    assert(t != "END_OF_BATCH"@ && t != "NET_DATA"@ && t != "NET_END"@ && t != "DISPLAY_END"@
        && t != "DISPLAY_DATA"@);
    assert(net_step(b, t) == b);
}

/// A core whose total counter did not grow on a line keeps the usage it had,
/// which at the start of a tick is the one carried over from the last tick.
pub proof fn lemma_still_core_keeps_usage(
    snaps: Seq<CpuSnap>,
    b: BatchView,
    line: Seq<char>,
    idx: int,
)
    requires
        b.usages.len() == snaps.len(),
        0 <= idx < snaps.len(),
    ensures
        ({
            let (s2, b2, _) = batch_step(snaps, b, line);
            s2.len() == snaps.len() && (floor_sub(s2[idx].total, snaps[idx].total) == 0
                ==> b2.usages[idx] == b.usages[idx])
        }),
{
}

} // verus!
