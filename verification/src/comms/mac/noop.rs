//! Pass-through MAC layer: no header, no encryption, no authentication.

use vstd::prelude::*;
use crate::comms::buf::Frame;
use crate::comms::error::CommsError;
use crate::comms::stack::Layer;
use crate::comms::transport::TransportAction;

verus! {

/// MAC layer that leaves frames untouched in both directions.
pub struct NoopMac;

impl Layer for NoopMac {
    open spec fn timeout_spec(self, a: TransportAction, after: Self) -> bool {
        a == TransportAction::Nothing && after == self
    }

    /// Nothing to retransmit at this layer.
    fn on_timeout(&mut self) -> (a: TransportAction) {
        TransportAction::Nothing
    }

    open spec fn down_spec(self, frame: Frame, r: Result<(), CommsError>, after: Self, frame_after: Frame) -> bool {
        r is Ok && frame_after == frame
    }

    open spec fn up_spec(self, frame: Frame, r: Result<bool, CommsError>, after: Self, frame_after: Frame) -> bool {
        r == Ok::<bool, CommsError>(true) && frame_after == frame
    }

    fn down(&mut self, frame: &mut Frame) -> (r: Result<(), CommsError>)
        ensures
            r is Ok,
            *final(frame) == *old(frame),
    {
        Ok(())
    }

    fn up(&mut self, frame: &mut Frame) -> (r: Result<bool, CommsError>)
        ensures
            r == Ok::<bool, CommsError>(true),
            *final(frame) == *old(frame),
    {
        Ok(true)
    }
}

} // verus!
