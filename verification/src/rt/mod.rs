//! Tick-based real-time kernel simulator: periodic tasks, EDF scheduling and
//! mutexes with priority (deadline) inheritance.

pub mod event;
pub mod task;
pub mod scheduler;
pub mod mutex;
pub mod kernel;
pub mod experiment;
