//! Verified core of a system-tracker panel applet: sample history,
//! configuration arithmetic, sysfs/fdinfo text parsing and the
//! decisions that pick a GPU backend.

pub mod app;
pub mod config;
pub mod history;
pub mod sampler;
pub mod settings;
pub mod text;
pub mod widgets;
