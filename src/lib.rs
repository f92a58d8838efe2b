//! A file I/O benchmark engine: workload configuration, per-operation offset
//! choice, the ordered operation log, its CSV form, and the run summary.
use vstd::prelude::*;

pub mod cli;
pub mod bench;
pub mod logfile;
pub mod logparse;
pub mod summary;

verus! {

} // verus!
