//! Per-process GPU statistics.

pub mod fdinfo;
pub mod nvml;
