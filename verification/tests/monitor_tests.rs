use asmo::monitor::{
    debug_ages, first_token, parse_cpu_stat, parse_gpu_busy, scan_meminfo, Supervisor,
    HEARTBEAT_INTERVAL, MAX_RISH_RETRIES, STORAGE_TICK_INTERVAL,
};
use asmo::types::MonitorHealth;

/// The reading of a figure: its first token as `f32`, or zero.
fn reading(s: &str) -> f32 {
    first_token(s).and_then(|t| t.parse().ok()).unwrap_or(0.0)
}

#[test]
fn parse_or_zero_valid() {
    assert_eq!(reading("42.5 kB"), 42.5);
    assert_eq!(reading("100"), 100.0);
}

#[test]
fn parse_or_zero_empty_and_garbage() {
    assert_eq!(reading(""), 0.0);
    assert_eq!(reading("   "), 0.0);
    assert_eq!(reading("abc xyz"), 0.0);
}

#[test]
fn parse_cpu_stat_normal_line() {
    // user nice system idle iowait irq softirq steal
    let (total, idle) = parse_cpu_stat("1000 200 300 5000 100 50 20 10");
    assert_eq!(total, 1000 + 200 + 300 + 5000 + 100 + 50 + 20 + 10);
    assert_eq!(idle, 5000 + 100); // idle + iowait
}

#[test]
fn parse_cpu_stat_empty() {
    let (total, idle) = parse_cpu_stat("");
    assert_eq!(total, 0);
    assert_eq!(idle, 0);
}

#[test]
fn parse_cpu_stat_partial() {
    // Only 2 fields — idle (idx 3) and iowait (idx 4) are absent.
    let (total, idle) = parse_cpu_stat("100 200");
    assert_eq!(total, 300);
    assert_eq!(idle, 0);
}

#[test]
fn parse_cpu_stat_ignores_fields_after_the_eighth() {
    let (total, idle) = parse_cpu_stat("1 1 1 1 1 1 1 1 1000 1000");
    assert_eq!(total, 8);
    assert_eq!(idle, 2);
}

#[test]
fn parse_cpu_stat_skips_unparseable_fields() {
    let (total, idle) = parse_cpu_stat("  10\tx 20 -5 7 ");
    assert_eq!(total, 37);
    assert_eq!(idle, 7);
}

#[test]
fn parse_cpu_stat_wraps_like_release_arithmetic() {
    let (total, _) = parse_cpu_stat("18446744073709551615 2");
    assert_eq!(total, 1);
}

#[test]
fn first_token_skips_leading_whitespace() {
    assert_eq!(first_token("  \t 310 C").as_deref(), Some("310"));
    assert_eq!(first_token(" \n "), None);
}

#[test]
fn gpu_busy_needs_positive_total() {
    assert_eq!(parse_gpu_busy("25 100\n"), Some((25, 100)));
    assert_eq!(parse_gpu_busy("25 0"), None);
    assert_eq!(parse_gpu_busy("25"), None);
    assert_eq!(parse_gpu_busy("x 100"), None);
    assert_eq!(parse_gpu_busy("25 y"), None);
}

#[test]
fn meminfo_picks_the_four_readings() {
    let content = "MemTotal:       11530796 kB\nMemFree:          254748 kB\nMemAvailable:    5810432 kB\nSwapTotal:       4194300 kB\r\nSwapFree:        1717752 kB\n";
    let m = scan_meminfo(content);
    assert_eq!(m.mem_total.as_deref(), Some("11530796"));
    assert_eq!(m.mem_available.as_deref(), Some("5810432"));
    assert_eq!(m.swap_total.as_deref(), Some("4194300"));
    assert_eq!(m.swap_free.as_deref(), Some("1717752"));
}

#[test]
fn meminfo_last_line_wins_and_missing_is_none() {
    let m = scan_meminfo("MemTotal: 10 kB\nMemTotal:\n");
    assert_eq!(m.mem_total, None);
    assert_eq!(m.swap_free, None);
    let m = scan_meminfo("MemTotal: 10 kB\nMemTotal: 20 kB");
    assert_eq!(m.mem_total.as_deref(), Some("20"));
}

#[test]
fn supervisor_gives_up_after_the_retry_limit() {
    let mut s = Supervisor::new();
    assert_eq!(s.connected(), MonitorHealth::Healthy);
    for _ in 0..MAX_RISH_RETRIES {
        assert_eq!(s.session_failed(), MonitorHealth::Degraded);
    }
    assert_eq!(s.session_failed(), MonitorHealth::Dead);
    assert_eq!(s.retries, MAX_RISH_RETRIES + 1);
}

#[test]
fn supervisor_connection_resets_failures() {
    let mut s = Supervisor::new();
    s.session_failed();
    s.session_failed();
    s.connected();
    assert_eq!(s.retries, 0);
    for _ in 0..MAX_RISH_RETRIES {
        assert_eq!(s.session_failed(), MonitorHealth::Degraded);
    }
}

#[test]
fn supervisor_storage_and_heartbeat_schedule() {
    let mut s = Supervisor::new();
    assert!(s.storage_due());
    let mut storage = 0;
    let mut beats = 0;
    for _ in 0..1000 {
        if s.storage_due() {
            storage += 1;
        }
        if s.tick_done() {
            beats += 1;
        }
    }
    assert_eq!(storage, (1000 + STORAGE_TICK_INTERVAL - 1) / STORAGE_TICK_INTERVAL);
    assert_eq!(beats, 1000 / HEARTBEAT_INTERVAL);
    assert_eq!(s.tick, 1000);
}

#[test]
fn debug_ages_saturate_and_wait_for_first_tick() {
    assert_eq!(debug_ages(100, 40, 0), (60, None));
    assert_eq!(debug_ages(100, 40, 97), (60, Some(3)));
    assert_eq!(debug_ages(10, 40, 97), (0, Some(0)));
}

#[test]
fn supervisor_tick_count_survives_reconnects() {
    let mut s = Supervisor::new();
    let mut dispatched: u64 = 0;
    let mut storage_ticks = Vec::new();
    for session in 0..4 {
        s.connected();
        for _ in 0..(50 + session * 7) {
            if s.storage_due() {
                storage_ticks.push(dispatched);
            }
            s.tick_done();
            dispatched += 1;
        }
        s.session_failed();
        s.session_failed();
        assert_eq!(s.tick, dispatched);
    }
    assert_eq!(dispatched, 242);
    assert_eq!(storage_ticks, vec![0, 60, 120, 180, 240]);
}
