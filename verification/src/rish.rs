//! Line-by-line reading of the batch that the privileged shell prints each
//! tick: uptime, per-core `/proc/stat` counters, battery and display values.
//! The caller reads lines and feeds them in; the batch ends at its marker line.

use vstd::prelude::*;

use crate::monitor::{cpu_stat_of, first_token_of, first_ws_token, opt_view, stat_idle, stat_total};
use crate::text::{
    chars_equal, chars_of, has_prefix, parse_i32, parse_i32_spec, parse_usize, parse_usize_spec,
    split_tag, split_tag_of, starts_with, string_from, trim, trimmed,
};
use crate::types::{BatteryStatus, CpuSnap};

verus! {

/// CPU activity of one core between two samples: `busy` of `total` ticks.
#[derive(Clone, Copy, PartialEq, Eq, Structural, Debug)]
pub struct CoreUsage {
    pub busy: u64,
    pub total: u64,
}

/// The integer and textual values of one batch. Text fields hold the number
/// as printed; `None` stands for a value of zero.
pub struct RishTick {
    /// First token of the last `UPTIME` line (seconds, possibly fractional).
    pub uptime: Option<String>,
    pub battery_level: i32,
    pub battery_status: BatteryStatus,
    /// `Some` once a `temperature:` line was seen; inside, its first token
    /// (tenths of a degree).
    pub battery_temp: Option<Option<String>>,
    /// Value of the first `mBrightness=` line of the display section.
    pub brightness: Option<String>,
    /// Value of the first `mActiveRenderFrameRate=` line of the display section.
    pub refresh_rate: Option<String>,
}

/// The state of a batch being read.
pub struct RishBatch {
    pub tick: RishTick,
    pub in_display: bool,
    /// Per core, the activity since its previous sample; `None` reads as zero usage.
    pub usages: Vec<Option<CoreUsage>>,
}

/// The mathematical content of a [`RishBatch`].
pub struct BatchModel {
    pub uptime: Option<Seq<char>>,
    pub battery_level: i32,
    pub battery_status: BatteryStatus,
    pub battery_temp: Option<Option<Seq<char>>>,
    pub brightness: Option<Seq<char>>,
    pub refresh_rate: Option<Seq<char>>,
    pub in_display: bool,
    pub usages: Seq<Option<CoreUsage>>,
}

pub open spec fn opt_opt_view(o: Option<Option<String>>) -> Option<Option<Seq<char>>> {
    match o {
        Some(i) => Some(opt_view(i)),
        None => None,
    }
}

impl View for RishBatch {
    type V = BatchModel;

    open spec fn view(&self) -> BatchModel {
        BatchModel {
            uptime: opt_view(self.tick.uptime),
            battery_level: self.tick.battery_level,
            battery_status: self.tick.battery_status,
            battery_temp: opt_opt_view(self.tick.battery_temp),
            brightness: opt_view(self.tick.brightness),
            refresh_rate: opt_view(self.tick.refresh_rate),
            in_display: self.in_display,
            usages: self.usages@,
        }
    }
}

/// An `i32` reading: the parsed number, or 0 when it does not parse.
pub open spec fn i32_or_zero(s: Seq<char>) -> i32 {
    match parse_i32_spec(s) {
        Some(v) => v,
        None => 0,
    }
}

/// The effect of a `/proc/stat` line for core `idx` whose counters are `rest`.
pub open spec fn core_sample(
    b: BatchModel,
    snaps: Seq<CpuSnap>,
    idx: int,
    rest: Seq<char>,
) -> (BatchModel, Seq<CpuSnap>) {
    let t = stat_total(rest) as u64;
    let i = stat_idle(rest) as u64;
    let dt = if t >= snaps[idx].total { (t - snaps[idx].total) as u64 } else { 0u64 };
    let di = if i >= snaps[idx].idle { (i - snaps[idx].idle) as u64 } else { 0u64 };
    let usages = if dt > 0 {
        b.usages.update(
            idx,
            Some(CoreUsage { busy: vstd::wrapping::u64_specs::wrapping_sub(dt, di), total: dt }),
        )
    } else {
        b.usages
    };
    (BatchModel { usages: usages, ..b }, snaps.update(idx, CpuSnap { total: t, idle: i }))
}

/// The effect of a line outside the display section.
pub open spec fn data_line(b: BatchModel, snaps: Seq<CpuSnap>, line: Seq<char>) -> (
    BatchModel,
    Seq<CpuSnap>,
) {
    let (tag, rest) = split_tag(line);
    if tag == "UPTIME"@ {
        (BatchModel { uptime: first_ws_token(rest), ..b }, snaps)
    } else if tag == "cpu"@ {
        (b, snaps)
    } else if tag == "level:"@ {
        (BatchModel { battery_level: i32_or_zero(trim(rest)), ..b }, snaps)
    } else if tag == "status:"@ {
        (BatchModel { battery_status: BatteryStatus::of_code(i32_or_zero(trim(rest))), ..b }, snaps)
    } else if tag == "temperature:"@ {
        (BatchModel { battery_temp: Some(first_ws_token(trim(rest))), ..b }, snaps)
    } else if starts_with(tag, "cpu"@) {
        match parse_usize_spec(tag.skip(3)) {
            Some(idx) => if idx < snaps.len() {
                core_sample(b, snaps, idx as int, rest)
            } else {
                (b, snaps)
            },
            None => (b, snaps),
        }
    } else {
        (b, snaps)
    }
}

/// The effect of a line inside the display section: the first brightness and
/// the first refresh-rate line count, all others are ignored.
pub open spec fn display_line(b: BatchModel, line: Seq<char>) -> BatchModel {
    if starts_with(line, "mBrightness="@) && b.brightness is None {
        BatchModel { brightness: Some(line.skip(12)), ..b }
    } else if starts_with(line, "mActiveRenderFrameRate="@) && b.refresh_rate is None {
        BatchModel { refresh_rate: Some(line.skip(23)), ..b }
    } else {
        b
    }
}

/// One step of reading a batch: the new batch state, the new core samples,
/// and whether the batch is complete.
pub open spec fn batch_step(b: BatchModel, snaps: Seq<CpuSnap>, raw: Seq<char>) -> (
    BatchModel,
    Seq<CpuSnap>,
    bool,
) {
    let line = trim(raw);
    if line == "END_OF_BATCH"@ {
        (b, snaps, true)
    } else if line == "DISPLAY_DATA"@ {
        (BatchModel { in_display: true, ..b }, snaps, false)
    } else if line == "DISPLAY_END"@ {
        (BatchModel { in_display: false, ..b }, snaps, false)
    } else if b.in_display {
        (display_line(b, line), snaps, false)
    } else {
        let (nb, ns) = data_line(b, snaps, line);
        (nb, ns, false)
    }
}

impl RishBatch {
    /// A fresh batch for `core_count` cores: every value zero, no section open.
    pub fn new(core_count: usize) -> (b: Self)
        ensures
            b@.uptime is None,
            b@.battery_level == 0,
            b@.battery_status == BatteryStatus::Unknown,
            b@.battery_temp is None,
            b@.brightness is None,
            b@.refresh_rate is None,
            !b@.in_display,
            b@.usages == Seq::new(core_count as nat, |i: int| None::<CoreUsage>),
    {
        let mut usages: Vec<Option<CoreUsage>> = Vec::new();
        let mut i: usize = 0;
        while i < core_count
            invariant
                i <= core_count,
                usages@ == Seq::new(i as nat, |j: int| None::<CoreUsage>),
            decreases core_count - i,
        {
            usages.push(None);
            i = i + 1;
            assert(usages@ =~= Seq::new(i as nat, |j: int| None::<CoreUsage>));
        }
        RishBatch {
            tick: RishTick {
                uptime: None,
                battery_level: 0,
                battery_status: BatteryStatus::Unknown,
                battery_temp: None,
                brightness: None,
                refresh_rate: None,
            },
            in_display: false,
            usages,
        }
    }

    /// Reads one line of the batch. Returns `true` at the end-of-batch marker.
    pub fn feed_line(&mut self, snaps: &mut Vec<CpuSnap>, raw_line: &str) -> (done: bool)
        requires
            old(self).usages.len() == old(snaps).len(),
        ensures
            (final(self)@, final(snaps)@, done) == batch_step(old(self)@, old(snaps)@, raw_line@),
            final(self).usages.len() == final(snaps).len(),
    {
        let raw = chars_of(raw_line);
        let line = trimmed(&raw);
        if chars_equal(&line, &chars_of("END_OF_BATCH")) {
            return true;
        }
        if chars_equal(&line, &chars_of("DISPLAY_DATA")) {
            self.in_display = true;
            return false;
        }
        if chars_equal(&line, &chars_of("DISPLAY_END")) {
            self.in_display = false;
            return false;
        }
        if self.in_display {
            self.display_line(&line);
        } else {
            self.data_line(snaps, &line);
        }
        false
    }

    fn display_line(&mut self, line: &Vec<char>)
        ensures
            final(self)@ == display_line(old(self)@, line@),
    {
        let kb = chars_of("mBrightness=");
        let kr = chars_of("mActiveRenderFrameRate=");
        proof {
            reveal_strlit("mBrightness=");
            reveal_strlit("mActiveRenderFrameRate=");
        }
        if has_prefix(line, &kb) && self.tick.brightness.is_none() {
            self.tick.brightness = Some(string_from(line, kb.len(), line.len()));
            assert(line@.subrange(12, line@.len() as int) =~= line@.skip(12));
        } else if has_prefix(line, &kr) && self.tick.refresh_rate.is_none() {
            self.tick.refresh_rate = Some(string_from(line, kr.len(), line.len()));
            assert(line@.subrange(23, line@.len() as int) =~= line@.skip(23));
        }
    }

    fn data_line(&mut self, snaps: &mut Vec<CpuSnap>, line: &Vec<char>)
        requires
            old(self).usages.len() == old(snaps).len(),
        ensures
            (final(self)@, final(snaps)@) == data_line(old(self)@, old(snaps)@, line@),
            final(self).usages.len() == final(snaps).len(),
    {
        let (tag, rest) = split_tag_of(line);
        if chars_equal(&tag, &chars_of("UPTIME")) {
            self.tick.uptime = first_token_of(&rest);
        } else if chars_equal(&tag, &chars_of("cpu")) {
        } else if chars_equal(&tag, &chars_of("level:")) {
            let t = trimmed(&rest);
            self.tick.battery_level = match parse_i32(&t) {
                Some(v) => v,
                None => 0,
            };
        } else if chars_equal(&tag, &chars_of("status:")) {
            let t = trimmed(&rest);
            let code = match parse_i32(&t) {
                Some(v) => v,
                None => 0,
            };
            self.tick.battery_status = BatteryStatus::from_code(code);
        } else if chars_equal(&tag, &chars_of("temperature:")) {
            let t = trimmed(&rest);
            self.tick.battery_temp = Some(first_token_of(&t));
        } else if has_prefix(&tag, &chars_of("cpu")) {
            proof {
                reveal_strlit("cpu");
            }
            let digits = crate::text::chars_between(&tag, 3, tag.len());
            assert(digits@ =~= tag@.skip(3));
            match parse_usize(&digits) {
                Some(idx) => {
                    if idx < snaps.len() {
                        self.core_sample(snaps, idx, &rest);
                    }
                },
                None => {},
            }
        }
    }

    fn core_sample(&mut self, snaps: &mut Vec<CpuSnap>, idx: usize, rest: &Vec<char>)
        requires
            old(self).usages.len() == old(snaps).len(),
            idx < old(snaps).len(),
        ensures
            (final(self)@, final(snaps)@) == core_sample(
                old(self)@,
                old(snaps)@,
                idx as int,
                rest@,
            ),
            final(self).usages.len() == final(snaps).len(),
    {
        let (t, i) = cpu_stat_of(rest);
        let prev = snaps[idx];
        let dt = t.saturating_sub(prev.total);
        let di = i.saturating_sub(prev.idle);
        if dt > 0 {
            self.usages.set(idx, Some(CoreUsage { busy: dt.wrapping_sub(di), total: dt }));
        }
        snaps.set(idx, CpuSnap { total: t, idle: i });
    }
}

/// Every recorded core usage covers an interval in which the total time advanced.
pub open spec fn usages_positive(usages: Seq<Option<CoreUsage>>) -> bool {
    forall|i: int| 0 <= i < usages.len() ==> (#[trigger] usages[i] matches Some(u) ==> u.total > 0)
}

/// Within a batch only the first brightness and the first refresh-rate line
/// count: once read, no later line changes them.
pub proof fn lemma_display_values_stick(b: BatchModel, snaps: Seq<CpuSnap>, raw: Seq<char>)
    ensures
        b.brightness is Some ==> batch_step(b, snaps, raw).0.brightness == b.brightness,
        b.refresh_rate is Some ==> batch_step(b, snaps, raw).0.refresh_rate == b.refresh_rate,
{
}

/// Lines of the display section touch nothing but the display values: the
/// uptime, battery and per-core data stay as they are.
pub proof fn lemma_display_section_isolated(b: BatchModel, snaps: Seq<CpuSnap>, raw: Seq<char>)
    requires
        b.in_display,
    ensures
        ({
            let (nb, ns, _) = batch_step(b, snaps, raw);
            &&& ns == snaps
            &&& nb.uptime == b.uptime
            &&& nb.battery_level == b.battery_level
            &&& nb.battery_status == b.battery_status
            &&& nb.battery_temp == b.battery_temp
            &&& nb.usages == b.usages
        }),
{
}

/// Lines outside the display section never change the display values.
pub proof fn lemma_data_lines_leave_display(b: BatchModel, snaps: Seq<CpuSnap>, raw: Seq<char>)
    requires
        !b.in_display,
    ensures
        batch_step(b, snaps, raw).0.brightness == b.brightness,
        batch_step(b, snaps, raw).0.refresh_rate == b.refresh_rate,
{
}

/// Reading a line keeps one sample and one usage slot per core, and only
/// ever records a usage over an interval in which the total time advanced.
pub proof fn lemma_step_keeps_cores(b: BatchModel, snaps: Seq<CpuSnap>, raw: Seq<char>)
    requires
        b.usages.len() == snaps.len(),
        usages_positive(b.usages),
    ensures
        batch_step(b, snaps, raw).0.usages.len() == snaps.len(),
        batch_step(b, snaps, raw).1.len() == snaps.len(),
        usages_positive(batch_step(b, snaps, raw).0.usages),
{
    let line = trim(raw);
    let (tag, rest) = split_tag(line);
    if !b.in_display && starts_with(tag, "cpu"@) {
        match parse_usize_spec(tag.skip(3)) {
            Some(idx) => {
                if idx < snaps.len() {
                    let nu = core_sample(b, snaps, idx as int, rest).0.usages;
                    assert forall|i: int| 0 <= i < nu.len() implies (#[trigger] nu[i] matches Some(
                        u,
                    ) ==> u.total > 0) by {
                        if i != idx {
                            assert(nu[i] == b.usages[i]);
                        }
                    }
                }
            },
            None => {},
        }
    }
}

/// A sample line for a known core records its counters, and records a usage
/// exactly when the total time advanced since the previous sample.
pub proof fn lemma_core_sample_records(b: BatchModel, snaps: Seq<CpuSnap>, idx: int, rest: Seq<char>)
    requires
        0 <= idx < snaps.len(),
        b.usages.len() == snaps.len(),
    ensures
        ({
            let (nb, ns) = core_sample(b, snaps, idx, rest);
            &&& ns[idx] == CpuSnap { total: stat_total(rest) as u64, idle: stat_idle(rest) as u64 }
            &&& forall|j: int| 0 <= j < snaps.len() && j != idx ==> ns[j] == snaps[j]
            &&& (nb.usages[idx] != b.usages[idx] ==> stat_total(rest) > snaps[idx].total)
            &&& (stat_total(rest) > snaps[idx].total ==> nb.usages[idx] == Some(
                CoreUsage {
                    busy: vstd::wrapping::u64_specs::wrapping_sub(
                        (stat_total(rest) - snaps[idx].total) as u64,
                        (if stat_idle(rest) >= snaps[idx].idle {
                            stat_idle(rest) - snaps[idx].idle
                        } else {
                            0
                        }) as u64,
                    ),
                    total: (stat_total(rest) - snaps[idx].total) as u64,
                },
            ))
        }),
{
}

/// A `status:` line outside the display section sets the battery status to
/// what its code stands for in the battery service: 2 charging,
/// 3 discharging, 4 not charging, 5 full, and any other code (or no number)
/// unknown. Nothing else of the batch changes, the core samples stay, and
/// the batch goes on.
pub proof fn lemma_status_line(b: BatchModel, snaps: Seq<CpuSnap>, raw: Seq<char>)
    requires
        !b.in_display,
        split_tag(trim(raw)).0 == "status:"@,
    ensures
        ({
            let (nb, ns, done) = batch_step(b, snaps, raw);
            let code = i32_or_zero(trim(split_tag(trim(raw)).1));
            &&& !done
            &&& ns == snaps
            &&& nb == BatchModel { battery_status: nb.battery_status, ..b }
            &&& code == 2 ==> nb.battery_status == BatteryStatus::Charging
            &&& code == 3 ==> nb.battery_status == BatteryStatus::Discharging
            &&& code == 4 ==> nb.battery_status == BatteryStatus::NotCharging
            &&& code == 5 ==> nb.battery_status == BatteryStatus::Full
            &&& !(2 <= code <= 5) ==> nb.battery_status == BatteryStatus::Unknown
        }),
{
    reveal_strlit("status:");
    reveal_strlit("END_OF_BATCH");
    reveal_strlit("DISPLAY_DATA");
    reveal_strlit("DISPLAY_END");
    reveal_strlit("UPTIME");
    reveal_strlit("cpu");
    reveal_strlit("level:");
    let line = trim(raw);
    let tag = split_tag(line).0;
    assert(tag.len() == 7 && tag[0] == 's');
    assert(line.len() > 0 && line[0] == 's');
    assert(line != "END_OF_BATCH"@ && line != "DISPLAY_DATA"@ && line != "DISPLAY_END"@) by {
        assert("END_OF_BATCH"@[0] == 'E');
        assert("DISPLAY_DATA"@[0] == 'D');
        assert("DISPLAY_END"@[0] == 'D');
    }
    assert(tag != "UPTIME"@ && tag != "cpu"@ && tag != "level:"@);
}

} // verus!
