//! Bandwidth accounting for a per-program network monitor: the pure logic of the
//! recording daemon and of the viewer, with its contracts.
pub mod text;
pub mod units;
pub mod common;
pub mod period;
pub mod chart;
pub mod addr;
pub mod stats;
pub mod record;
pub mod picker;
pub mod label;
