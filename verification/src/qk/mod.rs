//! Preemptive kernel: ready-set scheduler with thresholds and lock ceilings.
pub mod scheduler;
pub mod kernel;
pub mod time;
