//! BLE L2CAP basic-frame MAC layer (not yet functional).
//!
//! A B-frame is `[Length: 2 LE][CID: 2 LE][Information]`. Going down the
//! header is written, but without a BLE controller the layer cannot send, so
//! both directions report [`CommsError::MacError`].

use vstd::prelude::*;
use crate::comms::buf::Frame;
use crate::comms::error::CommsError;
use crate::comms::stack::Layer;
use crate::comms::transport::TransportAction;

verus! {

/// Length of the L2CAP basic-frame header.
pub const L2CAP_HEADER_LEN: usize = 4;

/// Header of an L2CAP basic frame of `len` payload bytes on channel `cid`.
pub open spec fn l2cap_header(len: nat, cid: u16) -> Seq<u8> {
    seq![(len as u16) as u8, ((len as u16) >> 8u16) as u8, cid as u8, (cid >> 8u16) as u8]
}

/// BLE L2CAP basic-frame MAC layer on one channel.
pub struct BleL2capMac {
    cid: u16,
}

impl BleL2capMac {
    /// A MAC layer on channel `cid` (0x0004 is ATT).
    pub fn new(cid: u16) -> (m: BleL2capMac)
        ensures
            m.channel() == cid,
    {
        BleL2capMac { cid }
    }

    /// The channel identifier.
    pub closed spec fn channel(&self) -> u16 {
        self.cid
    }

    /// The channel identifier.
    pub fn cid(&self) -> (c: u16)
        ensures
            c == self.channel(),
    {
        self.cid
    }
}

impl Layer for BleL2capMac {
    open spec fn timeout_spec(self, a: TransportAction, after: Self) -> bool {
        a == TransportAction::Nothing && after == self
    }

    /// Nothing to retransmit at this layer.
    fn on_timeout(&mut self) -> (a: TransportAction) {
        TransportAction::Nothing
    }

    open spec fn down_spec(self, frame: Frame, r: Result<(), CommsError>, after: Self, frame_after: Frame) -> bool {
        &&& frame.head() < L2CAP_HEADER_LEN ==> r == Err::<(), CommsError>(CommsError::BufferTooSmall)
            && frame_after == frame
        &&& frame.head() >= L2CAP_HEADER_LEN ==> r == Err::<(), CommsError>(CommsError::MacError)
            && frame_after@ == l2cap_header(frame@.len(), self.channel()) + frame@
    }

    open spec fn up_spec(self, frame: Frame, r: Result<bool, CommsError>, after: Self, frame_after: Frame) -> bool {
        r == Err::<bool, CommsError>(CommsError::MacError) && frame_after == frame
    }

    /// Writes the B-frame header, then reports that sending is unsupported.
    fn down(&mut self, frame: &mut Frame) -> (r: Result<(), CommsError>)
        ensures
            old(frame).head() < L2CAP_HEADER_LEN ==> r == Err::<(), CommsError>(
                CommsError::BufferTooSmall,
            ) && *final(frame) == *old(frame),
            old(frame).head() >= L2CAP_HEADER_LEN ==> r == Err::<(), CommsError>(
                CommsError::MacError,
            ) && final(frame)@ == l2cap_header(old(frame)@.len(), old(self).channel()) + old(
                frame,
            )@,
    {
        let len = frame.len() as u16;
        let hdr: Vec<u8> = vec![len as u8, (len >> 8u16) as u8, self.cid as u8, (self.cid >> 8u16) as u8];
        assert(hdr@ =~= l2cap_header(old(frame)@.len(), self.cid));
        match frame.prepend_header(hdr.as_slice()) {
            Ok(()) => Err(CommsError::MacError),
            Err(e) => Err(e),
        }
    }

    /// Receiving is unsupported.
    fn up(&mut self, frame: &mut Frame) -> (r: Result<bool, CommsError>)
        ensures
            r == Err::<bool, CommsError>(CommsError::MacError),
            *final(frame) == *old(frame),
    {
        Err(CommsError::MacError)
    }
}

} // verus!
