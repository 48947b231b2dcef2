//! Framework core: events, state machines, queues, pools, time and the
//! cooperative kernel.

pub mod bits;
pub mod event;
pub mod dis;
pub mod priospec;
pub mod hsm;
pub mod pool;
pub mod event_pool;
pub mod active;
pub mod qmsm;
pub mod equeue;
pub mod time;
pub mod kernel;
pub mod fusa;
pub mod port;
pub mod isr;
