//! Parsers for the kernel and shell text that the monitor reads each tick,
//! and the decisions of the monitor loop.

use vstd::prelude::*;

use crate::types::MonitorHealth;
use crate::text::{
    chars_of, has_prefix, lines_of, parse_u64, parse_u64_spec, starts_with, string_from, text_lines,
    tokens_of, ws_tokens,
};

verus! {

/// The `k`-th counter of a `/proc/stat` CPU line: the token parsed as `u64`,
/// or 0 when the token is absent or is no number.
pub open spec fn stat_field(s: Seq<char>, k: int) -> nat {
    let t = ws_tokens(s);
    if 0 <= k < t.len() {
        match parse_u64_spec(t[k]) {
            Some(v) => v as nat,
            None => 0,
        }
    } else {
        0
    }
}

/// Sum of the first `n` counters.
pub open spec fn stat_sum(s: Seq<char>, n: nat) -> nat
    decreases n,
{
    if n == 0 {
        0
    } else {
        stat_sum(s, (n - 1) as nat) + stat_field(s, n - 1)
    }
}

/// Total time of a CPU line: its first eight counters, modulo 2^64 as in
/// the release build's wrapping `u64` addition.
pub open spec fn stat_total(s: Seq<char>) -> nat {
    stat_sum(s, 8) % 0x1_0000_0000_0000_0000
}

/// Idle time of a CPU line: the idle (fourth) and iowait (fifth) counters.
pub open spec fn stat_idle(s: Seq<char>) -> nat {
    (stat_field(s, 3) + stat_field(s, 4)) % 0x1_0000_0000_0000_0000
}

proof fn lemma_wrap_step(a: nat, t: u64, x: u64)
    requires
        t == a % 0x1_0000_0000_0000_0000,
    ensures
        vstd::wrapping::u64_specs::wrapping_add(t, x) == (a + x) % 0x1_0000_0000_0000_0000,
{
    vstd::arithmetic::div_mod::lemma_add_mod_noop(a as int, x as int, 0x1_0000_0000_0000_0000);
    vstd::arithmetic::div_mod::lemma_small_mod(x as nat, 0x1_0000_0000_0000_0000);
    if t + x >= 0x1_0000_0000_0000_0000 {
        vstd::arithmetic::div_mod::lemma_mod_add_multiples_vanish(
            (t + x - 0x1_0000_0000_0000_0000) as int,
            0x1_0000_0000_0000_0000,
        );
        vstd::arithmetic::div_mod::lemma_small_mod(
            (t + x - 0x1_0000_0000_0000_0000) as nat,
            0x1_0000_0000_0000_0000,
        );
    } else {
        vstd::arithmetic::div_mod::lemma_small_mod((t + x) as nat, 0x1_0000_0000_0000_0000);
    }
}

proof fn lemma_stat_sum_beyond(s: Seq<char>, n: nat, m: nat)
    requires
        ws_tokens(s).len() <= n <= m,
    ensures
        stat_sum(s, m) == stat_sum(s, n),
    decreases m,
{
    if m > n {
        lemma_stat_sum_beyond(s, n, (m - 1) as nat);
    }
}

/// Parses the counters of a `/proc/stat` CPU line (the text after the tag)
/// into `(total, idle)`.
pub fn parse_cpu_stat(rest: &str) -> (r: (u64, u64))
    ensures
        r.0 == stat_total(rest@),
        r.1 == stat_idle(rest@),
{
    let v = chars_of(rest);
    cpu_stat_of(&v)
}

/// [`parse_cpu_stat`] on characters.
pub fn cpu_stat_of(v: &Vec<char>) -> (r: (u64, u64))
    ensures
        r.0 == stat_total(v@),
        r.1 == stat_idle(v@),
{
    let toks = tokens_of(&v);
    let n: usize = if toks.len() < 8 { toks.len() } else { 8 };
    let mut total: u64 = 0;
    let mut idle: u64 = 0;
    let mut k: usize = 0;
    while k < n
        invariant
            toks.len() == ws_tokens(v@).len(),
            forall|j: int| 0 <= j < toks.len() ==> #[trigger] toks@[j]@ == ws_tokens(v@)[j],
            n <= 8,
            n <= toks.len(),
            n == 8 || n == toks.len(),
            k <= n,
            total == stat_sum(v@, k as nat) % 0x1_0000_0000_0000_0000,
            idle == (if k > 3 { stat_field(v@, 3) } else { 0 } + if k > 4 {
                stat_field(v@, 4)
            } else {
                0
            }) % 0x1_0000_0000_0000_0000,
        decreases n - k,
    {
        let x: u64 = match parse_u64(&toks[k]) {
            Some(x) => x,
            None => 0,
        };
        assert(x == stat_field(v@, k as int));
        proof {
            lemma_wrap_step(stat_sum(v@, k as nat), total, x);
        }
        total = total.wrapping_add(x);
        if k == 3 || k == 4 {
            proof {
                let before = (if k > 3 { stat_field(v@, 3) } else { 0 } + if k > 4 {
                    stat_field(v@, 4)
                } else {
                    0
                });
                lemma_wrap_step(before, idle, x);
            }
            idle = idle.wrapping_add(x);
        }
        k = k + 1;
    }
    proof {
        if n < 8 {
            lemma_stat_sum_beyond(v@, n as nat, 8);
            if n <= 3 {
                assert(stat_field(v@, 3) == 0);
            }
            if n <= 4 {
                assert(stat_field(v@, 4) == 0);
            }
        }
    }
    (total, idle)
}

/// The characters of an optional string.
pub open spec fn opt_view(o: Option<String>) -> Option<Seq<char>> {
    match o {
        Some(s) => Some(s@),
        None => None,
    }
}

/// The first whitespace-separated token of `s`, if there is one.
pub open spec fn first_ws_token(s: Seq<char>) -> Option<Seq<char>> {
    if ws_tokens(s).len() > 0 {
        Some(ws_tokens(s)[0])
    } else {
        None
    }
}

/// The first whitespace-separated token of `s`: the part of a reading that
/// is parsed as a number, without the unit that may follow it.
pub fn first_token(s: &str) -> (r: Option<String>)
    ensures
        opt_view(r) == first_ws_token(s@),
{
    let v = chars_of(s);
    first_token_of(&v)
}

pub fn first_token_of(v: &Vec<char>) -> (r: Option<String>)
    ensures
        opt_view(r) == first_ws_token(v@),
{
    let toks = tokens_of(v);
    if toks.len() == 0 {
        None
    } else {
        let t = &toks[0];
        let r = string_from(t, 0, t.len());
        assert(t@.subrange(0, t@.len() as int) =~= t@);
        Some(r)
    }
}

/// The busy and total counters of the GPU busy file, when both parse and
/// the total is positive.
pub open spec fn gpu_busy_spec(s: Seq<char>) -> Option<(u64, u64)> {
    let t = ws_tokens(s);
    if t.len() >= 2 {
        match (parse_u64_spec(t[0]), parse_u64_spec(t[1])) {
            (Some(busy), Some(total)) => if total > 0 {
                Some((busy, total))
            } else {
                None
            },
            _ => None,
        }
    } else {
        None
    }
}

/// Reads `busy total` from the content of the GPU busy file; the load is
/// `busy / total` and exists only for a positive total.
pub fn parse_gpu_busy(content: &str) -> (r: Option<(u64, u64)>)
    ensures
        r == gpu_busy_spec(content@),
{
    let v = chars_of(content);
    let toks = tokens_of(&v);
    if toks.len() < 2 {
        return None;
    }
    let busy = match parse_u64(&toks[0]) {
        Some(b) => b,
        None => {
            return None;
        },
    };
    let total = match parse_u64(&toks[1]) {
        Some(t) => t,
        None => {
            return None;
        },
    };
    if total > 0 {
        Some((busy, total))
    } else {
        None
    }
}

/// The reading of `key` in the lines of `/proc/meminfo`: the first token
/// after the key on the last line that starts with it.
pub open spec fn meminfo_value(lines: Seq<Seq<char>>, key: Seq<char>) -> Option<Seq<char>>
    decreases lines.len(),
{
    if lines.len() == 0 {
        None
    } else if starts_with(lines.last(), key) {
        first_ws_token(lines.last().skip(key.len() as int))
    } else {
        meminfo_value(lines.drop_last(), key)
    }
}

/// The readings of `/proc/meminfo` that the memory figures come from, in kB
/// as written there; `None` stands for a reading of zero.
pub struct MeminfoFields {
    pub mem_total: Option<String>,
    pub mem_available: Option<String>,
    pub swap_total: Option<String>,
    pub swap_free: Option<String>,
}

/// Picks the four memory readings out of the content of `/proc/meminfo`.
pub fn scan_meminfo(content: &str) -> (r: MeminfoFields)
    ensures
        opt_view(r.mem_total) == meminfo_value(text_lines(content@), "MemTotal:"@),
        opt_view(r.mem_available) == meminfo_value(text_lines(content@), "MemAvailable:"@),
        opt_view(r.swap_total) == meminfo_value(text_lines(content@), "SwapTotal:"@),
        opt_view(r.swap_free) == meminfo_value(text_lines(content@), "SwapFree:"@),
{
    let v = chars_of(content);
    let lines = lines_of(&v);
    let k_total = chars_of("MemTotal:");
    let k_avail = chars_of("MemAvailable:");
    let k_swap_total = chars_of("SwapTotal:");
    let k_swap_free = chars_of("SwapFree:");
    let ghost ls = text_lines(v@);
    let mut r = MeminfoFields {
        mem_total: None,
        mem_available: None,
        swap_total: None,
        swap_free: None,
    };
    let mut i: usize = 0;
    assert(ls.take(0) =~= Seq::<Seq<char>>::empty());
    while i < lines.len()
        invariant
            ls == text_lines(v@),
            v@ == content@,
            k_total@ == "MemTotal:"@,
            k_avail@ == "MemAvailable:"@,
            k_swap_total@ == "SwapTotal:"@,
            k_swap_free@ == "SwapFree:"@,
            lines.len() == ls.len(),
            forall|k: int| 0 <= k < lines.len() ==> #[trigger] lines@[k]@ == ls[k],
            i <= lines.len(),
            opt_view(r.mem_total) == meminfo_value(ls.take(i as int), k_total@),
            opt_view(r.mem_available) == meminfo_value(ls.take(i as int), k_avail@),
            opt_view(r.swap_total) == meminfo_value(ls.take(i as int), k_swap_total@),
            opt_view(r.swap_free) == meminfo_value(ls.take(i as int), k_swap_free@),
        decreases lines.len() - i,
    {
        let line = &lines[i];
        assert(ls.take(i + 1).drop_last() =~= ls.take(i as int));
        assert(ls.take(i + 1).last() == line@);
        if has_prefix(line, &k_total) {
            r.mem_total = token_after(line, k_total.len());
        } else if has_prefix(line, &k_avail) {
            r.mem_available = token_after(line, k_avail.len());
        } else if has_prefix(line, &k_swap_total) {
            r.swap_total = token_after(line, k_swap_total.len());
        } else if has_prefix(line, &k_swap_free) {
            r.swap_free = token_after(line, k_swap_free.len());
        }
        proof {
            lemma_prefixes_exclusive(line@);
        }
        i = i + 1;
    }
    assert(ls.take(lines.len() as int) =~= ls);
    r
}

/// No line starts with two of the four meminfo keys.
proof fn lemma_prefixes_exclusive(l: Seq<char>)
    ensures
        starts_with(l, "MemTotal:"@) ==> !starts_with(l, "MemAvailable:"@) && !starts_with(
            l,
            "SwapTotal:"@,
        ) && !starts_with(l, "SwapFree:"@),
        starts_with(l, "MemAvailable:"@) ==> !starts_with(l, "SwapTotal:"@) && !starts_with(
            l,
            "SwapFree:"@,
        ),
        starts_with(l, "SwapTotal:"@) ==> !starts_with(l, "SwapFree:"@),
{
    reveal_strlit("MemTotal:");
    reveal_strlit("MemAvailable:");
    reveal_strlit("SwapTotal:");
    reveal_strlit("SwapFree:");
    if starts_with(l, "MemTotal:"@) {
        assert(l[3] == "MemTotal:"@[3]);
    }
    if starts_with(l, "MemAvailable:"@) {
        assert(l[0] == "MemAvailable:"@[0]);
    }
    if starts_with(l, "SwapTotal:"@) {
        assert(l[4] == "SwapTotal:"@[4]);
    }
}

fn token_after(line: &Vec<char>, n: usize) -> (r: Option<String>)
    requires
        n <= line.len(),
    ensures
        opt_view(r) == first_ws_token(line@.skip(n as int)),
{
    let rest = crate::text::chars_between(line, n, line.len());
    assert(rest@ =~= line@.skip(n as int));
    first_token_of(&rest)
}

// ---------------------------------------------------------------------------
// Monitor loop decisions.
// ---------------------------------------------------------------------------

/// Consecutive failures of the shell session after which the monitor gives up.
pub const MAX_RISH_RETRIES: u32 = 5;

/// Storage figures are refreshed on every tick that is a multiple of this.
pub const STORAGE_TICK_INTERVAL: u64 = 60;

/// A heartbeat is logged on every tick count that is a multiple of this.
pub const HEARTBEAT_INTERVAL: u64 = 500;

/// The monitor loop's own state: consecutive session failures and ticks so far.
pub struct Supervisor {
    pub retries: u32,
    pub tick: u64,
}

impl Supervisor {
    /// A monitor that has neither failed nor ticked.
    pub fn new() -> (s: Self)
        ensures
            s.retries == 0,
            s.tick == 0,
    {
        Supervisor { retries: 0, tick: 0 }
    }

    /// Whether the monitor has given up.
    pub open spec fn is_dead(&self) -> bool {
        self.retries > MAX_RISH_RETRIES
    }

    /// The shell session could not be started or has ended. The returned
    /// health is `Dead` when the limit of consecutive failures is passed, in
    /// which case the monitor stops; otherwise `Degraded`, and it retries.
    pub fn session_failed(&mut self) -> (h: MonitorHealth)
        requires
            !old(self).is_dead(),
        ensures
            (*final(self), h) == after_failures(*old(self), 1),
            *final(self) == apply_event(*old(self), MonitorEvent::SessionFailed),
            final(self).retries == old(self).retries + 1,
            final(self).tick == old(self).tick,
            h == (if final(self).is_dead() {
                MonitorHealth::Dead
            } else {
                MonitorHealth::Degraded
            }),
    {
        let ghost o = *self;
        assert(after_failures(o, 0) == (o, MonitorHealth::Healthy));
        self.retries = self.retries + 1;
        if self.retries > MAX_RISH_RETRIES {
            MonitorHealth::Dead
        } else {
            MonitorHealth::Degraded
        }
    }

    /// A shell session has been opened: the failure count starts over.
    pub fn connected(&mut self) -> (h: MonitorHealth)
        ensures
            *final(self) == apply_event(*old(self), MonitorEvent::Connected),
            final(self).retries == 0,
            final(self).tick == old(self).tick,
            h == MonitorHealth::Healthy,
    {
        self.retries = 0;
        MonitorHealth::Healthy
    }

    /// Whether the coming tick refreshes the storage figures.
    pub fn storage_due(&self) -> (b: bool)
        ensures
            b == (self.tick % STORAGE_TICK_INTERVAL == 0),
    {
        self.tick % STORAGE_TICK_INTERVAL == 0
    }

    /// A tick has been dispatched. Returns whether a heartbeat is due.
    pub fn tick_done(&mut self) -> (heartbeat: bool)
        requires
            old(self).tick < u64::MAX,
        ensures
            *final(self) == apply_event(*old(self), MonitorEvent::TickDone),
            final(self).tick == old(self).tick + 1,
            final(self).retries == old(self).retries,
            heartbeat == (final(self).tick % HEARTBEAT_INTERVAL == 0),
    {
        self.tick = self.tick + 1;
        self.tick % HEARTBEAT_INTERVAL == 0
    }
}

/// The state and health after `n` consecutive session failures from `s`.
pub open spec fn after_failures(s: Supervisor, n: nat) -> (Supervisor, MonitorHealth)
    decreases n,
{
    if n == 0 {
        (s, MonitorHealth::Healthy)
    } else {
        let (prev, _) = after_failures(s, (n - 1) as nat);
        let next = Supervisor { retries: (prev.retries + 1) as u32, tick: prev.tick };
        (next, if next.is_dead() {
            MonitorHealth::Dead
        } else {
            MonitorHealth::Degraded
        })
    }
}

/// After a connection the monitor survives `MAX_RISH_RETRIES` consecutive
/// session failures, degraded and retrying, and gives up at the next one:
/// the `n`-th failure (counted from `connected`) reports `Dead` exactly when
/// `n == MAX_RISH_RETRIES + 1`, and the monitor stops there.
pub proof fn lemma_failures_until_dead(s: Supervisor, n: nat)
    requires
        s.retries == 0,
        1 <= n <= MAX_RISH_RETRIES + 1,
    ensures
        after_failures(s, n).0.retries == n,
        after_failures(s, n).1 == (if n == MAX_RISH_RETRIES + 1 {
            MonitorHealth::Dead
        } else {
            MonitorHealth::Degraded
        }),
        forall|k: nat| 1 <= k < n ==> !(#[trigger] after_failures(s, k)).0.is_dead(),
    decreases n,
{
    if n > 1 {
        lemma_failures_until_dead(s, (n - 1) as nat);
    }
    assert(after_failures(s, 0).0.retries == 0);
    assert forall|k: nat| 1 <= k < n implies !(#[trigger] after_failures(s, k)).0.is_dead() by {
        lemma_retries_count(s, k);
    }
}

proof fn lemma_retries_count(s: Supervisor, k: nat)
    requires
        s.retries == 0,
        k <= MAX_RISH_RETRIES + 1,
    ensures
        after_failures(s, k).0.retries == k,
    decreases k,
{
    if k > 0 {
        lemma_retries_count(s, (k - 1) as nat);
    }
}

/// What the monitor loop reports to its supervisor between two decisions.
pub enum MonitorEvent {
    /// A shell session was opened ([`Supervisor::connected`]).
    Connected,
    /// A shell session could not be opened or ended ([`Supervisor::session_failed`]).
    SessionFailed,
    /// A tick was dispatched ([`Supervisor::tick_done`]).
    TickDone,
}

/// The supervisor after one event.
pub open spec fn apply_event(s: Supervisor, e: MonitorEvent) -> Supervisor {
    match e {
        MonitorEvent::Connected => Supervisor { retries: 0, tick: s.tick },
        MonitorEvent::SessionFailed => after_failures(s, 1).0,
        MonitorEvent::TickDone => Supervisor { retries: s.retries, tick: (s.tick + 1) as u64 },
    }
}

/// The supervisor after a run of events, in order.
pub open spec fn run_events(s: Supervisor, events: Seq<MonitorEvent>) -> Supervisor
    decreases events.len(),
{
    if events.len() == 0 {
        s
    } else {
        apply_event(run_events(s, events.drop_last()), events.last())
    }
}

/// How many ticks a run of events dispatched.
pub open spec fn ticks_in(events: Seq<MonitorEvent>) -> nat
    decreases events.len(),
{
    if events.len() == 0 {
        0
    } else {
        ticks_in(events.drop_last()) + if events.last() is TickDone {
            1nat
        } else {
            0nat
        }
    }
}

/// The tick count is never reset: over any run of events, sessions opened
/// and failed included, it grows by exactly the number of ticks dispatched.
/// From a new supervisor it therefore counts every tick dispatched so far,
/// and storage is due on exactly those ticks whose count of earlier ticks is
/// a multiple of [`STORAGE_TICK_INTERVAL`], the first tick included.
pub proof fn lemma_ticks_counted(s: Supervisor, events: Seq<MonitorEvent>)
    requires
        s.tick + ticks_in(events) <= u64::MAX,
    ensures
        run_events(s, events).tick == s.tick + ticks_in(events),
        s.tick == 0 ==> (run_events(s, events).tick % STORAGE_TICK_INTERVAL == 0 <==> ticks_in(
            events,
        ) % (STORAGE_TICK_INTERVAL as nat) == 0),
    decreases events.len(),
{
    if events.len() > 0 {
        let prev = run_events(s, events.drop_last());
        lemma_ticks_counted(s, events.drop_last());
        assert(after_failures(prev, 0).0 == prev);
    }
}

/// Uptime of the service and age of the last tick, for the diagnostics
/// endpoint. The age is absent before the first tick (a recorded time of 0);
/// both differences stop at zero rather than going negative.
pub fn debug_ages(now_unix: u64, started_unix: u64, last_tick_unix: u64) -> (r: (u64, Option<u64>))
    ensures
        r.0 == (if now_unix >= started_unix { now_unix - started_unix } else { 0 }),
        last_tick_unix == 0 ==> r.1 is None,
        last_tick_unix != 0 ==> r.1 == Some(
            (if now_unix >= last_tick_unix { now_unix - last_tick_unix } else { 0 }) as u64,
        ),
{
    let uptime = now_unix.saturating_sub(started_unix);
    let age = if last_tick_unix == 0 {
        None
    } else {
        Some(now_unix.saturating_sub(last_tick_unix))
    };
    (uptime, age)
}

} // verus!
