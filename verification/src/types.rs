//! Shared value types: battery status, monitor health and service counters.

use std::sync::Arc;
use std::sync::atomic::{AtomicBool, AtomicU32, AtomicU64, AtomicU8, Ordering};

use vstd::prelude::*;

verus! {

/// Charging state reported by the battery service.
#[derive(Clone, Copy, Default, PartialEq, Eq, Structural, Debug)]
pub enum BatteryStatus {
    Charging,
    Discharging,
    NotCharging,
    Full,
    #[default]
    Unknown,
}

impl BatteryStatus {
    /// The status that a numeric status code of the battery service stands for.
    pub open spec fn of_code(code: i32) -> BatteryStatus {
        match code {
            2 => BatteryStatus::Charging,
            3 => BatteryStatus::Discharging,
            4 => BatteryStatus::NotCharging,
            5 => BatteryStatus::Full,
            _ => BatteryStatus::Unknown,
        }
    }

    /// Maps the numeric status code of the battery service to a status.
    pub fn from_code(code: i32) -> (s: Self)
        ensures
            s == Self::of_code(code),
            code == 2 ==> s == BatteryStatus::Charging,
            code == 3 ==> s == BatteryStatus::Discharging,
            code == 4 ==> s == BatteryStatus::NotCharging,
            code == 5 ==> s == BatteryStatus::Full,
            !(2 <= code <= 5) ==> s == BatteryStatus::Unknown,
    {
        match code {
            2 => BatteryStatus::Charging,
            3 => BatteryStatus::Discharging,
            4 => BatteryStatus::NotCharging,
            5 => BatteryStatus::Full,
            _ => BatteryStatus::Unknown,
        }
    }
}

/// Health of the background monitor.
#[derive(Clone, Copy, Default, PartialEq, Eq, Structural, Debug)]
pub enum MonitorHealth {
    #[default]
    Starting,
    Healthy,
    Degraded,
    Dead,
}

impl MonitorHealth {
    /// The byte that encodes a health value.
    pub open spec fn code(self) -> u8 {
        match self {
            MonitorHealth::Starting => 0,
            MonitorHealth::Healthy => 1,
            MonitorHealth::Degraded => 2,
            MonitorHealth::Dead => 3,
        }
    }

    /// The health value that a byte decodes to; unknown bytes mean `Starting`.
    pub open spec fn decode(v: u8) -> MonitorHealth {
        if v == 1 {
            MonitorHealth::Healthy
        } else if v == 2 {
            MonitorHealth::Degraded
        } else if v == 3 {
            MonitorHealth::Dead
        } else {
            MonitorHealth::Starting
        }
    }

    pub fn from_u8(v: u8) -> (h: Self)
        ensures
            h == Self::decode(v),
    {
        match v {
            1 => MonitorHealth::Healthy,
            2 => MonitorHealth::Degraded,
            3 => MonitorHealth::Dead,
            _ => MonitorHealth::Starting,
        }
    }

    pub fn as_u8(self) -> (v: u8)
        ensures
            v == self.code(),
            v <= 3,
    {
        match self {
            MonitorHealth::Starting => 0,
            MonitorHealth::Healthy => 1,
            MonitorHealth::Degraded => 2,
            MonitorHealth::Dead => 3,
        }
    }
}

/// Decoding the encoding of a health value gives that value back.
pub proof fn lemma_health_code_roundtrip(h: MonitorHealth)
    ensures
        MonitorHealth::decode(h.code()) == h,
{
}

/// Every byte up to 3 is the encoding of the value it decodes to.
pub proof fn lemma_health_decode_encode(v: u8)
    requires
        v <= 3,
    ensures
        MonitorHealth::decode(v).code() == v,
{
}

/// [`MonitorHealth`] held in an atomic byte, shareable between tasks.
#[derive(Default)]
pub struct AtomicHealth(AtomicU8);

impl AtomicHealth {
    /// Stores the encoding of `health`.
    pub fn store(&self, health: MonitorHealth) {
        let code = health.as_u8();
        self.0.store(code, Ordering::Relaxed);
    }

    /// Loads the stored byte and decodes it. The byte is shared with other
    /// tasks through `&self`, so what was last stored is not stated here;
    /// [`lemma_health_code_roundtrip`] is what makes a load give back a stored
    /// health.
    pub fn load(&self) -> (h: MonitorHealth) {
        let v = self.0.load(Ordering::Relaxed);
        MonitorHealth::from_u8(v)
    }
}

/// Static identity strings of the device.
#[derive(Clone, Default)]
pub struct DeviceStrings {
    pub manufacturer: Arc<str>,
    pub product_model: Arc<str>,
    pub soc_model: Arc<str>,
    pub kernel_version: Arc<str>,
    pub android_version: Arc<str>,
}

/// Cumulative CPU time of one core at one sample.
#[derive(Clone, Copy, Default, PartialEq, Eq, Structural, Debug)]
pub struct CpuSnap {
    pub total: u64,
    pub idle: u64,
}

/// Thermal-zone files chosen at discovery.
pub struct DevicePaths {
    pub cpu_temp: Box<str>,
    pub gpu_temp: Box<str>,
}

/// Counters and configuration surfaced by the diagnostics endpoint.
pub struct ServiceStatus {
    /// Consecutive restart attempts of the shell session in the current failure sequence.
    pub rish_retry_count: AtomicU32,
    /// Shell sessions opened since startup.
    pub rish_session_count: AtomicU32,
    /// Monitoring ticks dispatched since startup.
    pub tick_count: AtomicU64,
    /// Unix time of the most recent completed tick, `0` before the first.
    pub last_tick_unix_secs: AtomicU64,
    /// Unix time at startup.
    pub started_unix_secs: u64,
    /// Poll interval in milliseconds.
    pub poll_interval_ms: u64,
    pub cpu_temp_path: Box<str>,
    pub gpu_temp_path: Box<str>,
    pub cpu_temp_ok: AtomicBool,
    pub gpu_temp_ok: AtomicBool,
    pub gpu_load_ok: AtomicBool,
    /// Bind address, such as `0.0.0.0:3000`.
    pub bind_addr: Box<str>,
    /// Number of CPU cores detected at startup.
    pub core_count: usize,
}

impl ServiceStatus {
    pub fn new(
        started_unix_secs: u64,
        poll_interval_ms: u64,
        cpu_temp_path: &str,
        gpu_temp_path: &str,
        bind_addr: &str,
        core_count: usize,
    ) -> (s: Self)
        ensures
            s.started_unix_secs == started_unix_secs,
            s.poll_interval_ms == poll_interval_ms,
            s.cpu_temp_path@ == cpu_temp_path@,
            s.gpu_temp_path@ == gpu_temp_path@,
            s.bind_addr@ == bind_addr@,
            s.core_count == core_count,
    {
        ServiceStatus {
            rish_retry_count: AtomicU32::new(0),
            rish_session_count: AtomicU32::new(0),
            tick_count: AtomicU64::new(0),
            last_tick_unix_secs: AtomicU64::new(0),
            started_unix_secs,
            poll_interval_ms,
            cpu_temp_path: boxed_str(cpu_temp_path),
            gpu_temp_path: boxed_str(gpu_temp_path),
            cpu_temp_ok: AtomicBool::new(false),
            gpu_temp_ok: AtomicBool::new(false),
            gpu_load_ok: AtomicBool::new(false),
            bind_addr: boxed_str(bind_addr),
            core_count,
        }
    }
}

/// `Box<str>::from(&str)`: an owned copy of the same characters.
#[verifier::external_body]
fn boxed_str(s: &str) -> (b: Box<str>)
    ensures
        b@ == s@,
{
    Box::from(s)
}

} // verus!
