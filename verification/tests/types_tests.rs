use asmo::types::{AtomicHealth, BatteryStatus, DeviceStrings, MonitorHealth, ServiceStatus};
use std::sync::atomic::Ordering;

#[test]
fn battery_status_from_known_codes() {
    assert_eq!(BatteryStatus::from_code(2), BatteryStatus::Charging);
    assert_eq!(BatteryStatus::from_code(3), BatteryStatus::Discharging);
    assert_eq!(BatteryStatus::from_code(4), BatteryStatus::NotCharging);
    assert_eq!(BatteryStatus::from_code(5), BatteryStatus::Full);
}

#[test]
fn battery_status_unknown_for_invalid_codes() {
    for code in [0, 1, 6, -1, 100] {
        assert_eq!(BatteryStatus::from_code(code), BatteryStatus::Unknown);
    }
}

#[test]
fn monitor_health_roundtrip() {
    for h in [
        MonitorHealth::Starting,
        MonitorHealth::Healthy,
        MonitorHealth::Degraded,
        MonitorHealth::Dead,
    ] {
        assert_eq!(MonitorHealth::from_u8(h.as_u8()), h);
    }
}

#[test]
fn atomic_health_store_load() {
    let h = AtomicHealth::default();
    assert_eq!(h.load(), MonitorHealth::Starting);
    h.store(MonitorHealth::Healthy);
    assert_eq!(h.load(), MonitorHealth::Healthy);
}

#[test]
fn device_strings_default_is_empty() {
    let d = DeviceStrings::default();
    assert_eq!(&*d.manufacturer, "");
    assert_eq!(&*d.product_model, "");
}

#[test]
fn monitor_health_codes_are_fixed() {
    assert_eq!(MonitorHealth::Starting.as_u8(), 0);
    assert_eq!(MonitorHealth::Healthy.as_u8(), 1);
    assert_eq!(MonitorHealth::Degraded.as_u8(), 2);
    assert_eq!(MonitorHealth::Dead.as_u8(), 3);
    assert_eq!(MonitorHealth::from_u8(4), MonitorHealth::Starting);
    assert_eq!(MonitorHealth::from_u8(255), MonitorHealth::Starting);
}

#[test]
fn atomic_health_keeps_last_store() {
    let h = AtomicHealth::default();
    h.store(MonitorHealth::Degraded);
    h.store(MonitorHealth::Dead);
    assert_eq!(h.load(), MonitorHealth::Dead);
}

#[test]
fn service_status_new_copies_configuration() {
    let s = ServiceStatus::new(1000, 500, "/a/temp", "/b/temp", "0.0.0.0:3000", 8);
    assert_eq!(s.started_unix_secs, 1000);
    assert_eq!(s.poll_interval_ms, 500);
    assert_eq!(&*s.cpu_temp_path, "/a/temp");
    assert_eq!(&*s.gpu_temp_path, "/b/temp");
    assert_eq!(&*s.bind_addr, "0.0.0.0:3000");
    assert_eq!(s.core_count, 8);
    assert_eq!(s.tick_count.load(Ordering::Relaxed), 0);
    assert_eq!(s.rish_retry_count.load(Ordering::Relaxed), 0);
    assert!(!s.cpu_temp_ok.load(Ordering::Relaxed));
}
