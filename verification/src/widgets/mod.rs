//! Drawing helpers.

pub mod sparkline;
