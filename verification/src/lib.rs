//! Active-object framework: events, hierarchical state machines, event
//! queues, memory pools, time events, cooperative and preemptive kernels, and
//! a layered RF communication stack.

pub mod qf;
pub mod qk;
pub mod comms;
pub mod blinky;
