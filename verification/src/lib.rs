//! Verified models of three small operating-systems projects: a tick-based
//! real-time kernel simulator with priority inheritance, a journaling block
//! file system, and the resource managers of a multicore teaching kernel.

pub mod rt;
pub mod jfs;
pub mod kern;
