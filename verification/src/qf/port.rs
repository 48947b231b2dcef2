//! Hooks a port provides to the kernels.

use vstd::prelude::*;

verus! {

/// Requests a context switch from the port (e.g. by pending an interrupt).
pub trait ContextSwitch {
    /// Asks the port to switch context.
    fn request(&self);
}

/// Context switch that does nothing (cooperative or host ports).
#[derive(Debug, Default, Clone, Copy)]
pub struct NoopContextSwitch;

impl ContextSwitch for NoopContextSwitch {
    fn request(&self) {
    }
}

/// What a port's main loop needs from a kernel.
pub trait Runtime {
    /// Error of advancing time.
    type TickError;

    /// Advances time by one tick.
    fn tick(&mut self) -> Result<(), Self::TickError>;

    /// Dispatches until nothing is ready to run.
    fn run_until_idle(&mut self);

    /// Whether events are waiting.
    fn has_pending_work(&self) -> bool;
}

} // verus!
