//! Reads the historic power-state logs of a power-management daemon: picks the
//! per-device log files, parses each into a time series of samples, and gathers
//! them by file.
use vstd::prelude::*;

pub mod device_log;
pub mod history;
pub mod sample;
pub mod selection;
pub mod text;

verus! {

} // verus!
