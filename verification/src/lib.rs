//! Verified core of a device-statistics service: value types, the parsers
//! for kernel and shell text, the path router over a JSON value tree and the
//! monitor's decision logic.

pub mod types;
pub mod text;
pub mod monitor;
pub mod rish;
pub mod json;
pub mod router;
pub mod discover;
