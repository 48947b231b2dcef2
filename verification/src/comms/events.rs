//! Signals and event payloads of the RF stack.

use vstd::prelude::*;
use crate::qf::event::Signal;

verus! {

/// Application to RF stack: transmit request.
pub const RF_TX_REQ_SIG_VAL: u16 = 20;
/// Application to RF stack: enter receive mode.
pub const RF_RX_START_SIG_VAL: u16 = 21;
/// PHY interrupt bridge: generic DIO interrupt.
pub const RF_PHY_IRQ_SIG_VAL: u16 = 22;
/// PHY interrupt bridge: transmission finished.
pub const RF_PHY_TX_DONE_SIG_VAL: u16 = 23;
/// PHY interrupt bridge: frame received.
pub const RF_PHY_RX_DONE_SIG_VAL: u16 = 24;
/// PHY interrupt bridge: receive window timed out.
pub const RF_PHY_RX_TIMEOUT_SIG_VAL: u16 = 25;
/// PHY interrupt bridge: CRC error on reception.
pub const RF_PHY_CRC_ERROR_SIG_VAL: u16 = 26;
/// RF stack to application: transmission complete.
pub const RF_TX_DONE_SIG_VAL: u16 = 27;
/// RF stack to application: transmission failed.
pub const RF_TX_FAIL_SIG_VAL: u16 = 28;
/// RF stack to application: payload received.
pub const RF_RX_FRAME_SIG_VAL: u16 = 29;
/// Internal: reliable-transport retransmit timer expired.
pub const RF_TRANSPORT_TIMEOUT_SIG_VAL: u16 = 30;

/// Signal with the given value (usable in contracts and code alike).
pub fn rf_signal(v: u16) -> (s: Signal)
    ensures
        s@ == v,
{
    Signal::from_raw(v)
}

/// Payload of a transmit request.
#[derive(Debug, Clone)]
pub struct RfTxReqPayload {
    /// Application bytes to transmit.
    pub data: Vec<u8>,
    /// LoRaWAN FPort.
    pub fport: u8,
    /// Whether the transfer needs acknowledgement and retransmission.
    pub reliable: bool,
}

impl RfTxReqPayload {
    /// An unreliable transmit request.
    pub fn new(data: Vec<u8>, fport: u8) -> (p: RfTxReqPayload)
        ensures
            p.data@ == data@,
            p.fport == fport,
            !p.reliable,
    {
        RfTxReqPayload { data, fport, reliable: false }
    }

    /// A transmit request with the given reliability.
    pub fn with_reliability(data: Vec<u8>, fport: u8, reliable: bool) -> (p: RfTxReqPayload)
        ensures
            p.data@ == data@,
            p.fport == fport,
            p.reliable == reliable,
    {
        RfTxReqPayload { data, fport, reliable }
    }
}

/// Largest payload a received frame can deliver to the application.
pub const RX_FRAME_MAX: usize = 242;

/// Payload of a received-frame notification.
#[derive(Debug, Clone)]
pub struct RfRxFramePayload {
    /// Received application bytes (at most [`RX_FRAME_MAX`]).
    pub data: Vec<u8>,
    /// Port the frame arrived on.
    pub port: u8,
    /// Received signal strength, dBm.
    pub rssi: i16,
    /// Signal-to-noise ratio, tenths of dB.
    pub snr: i16,
}

/// Reception metadata reported by a PHY.
#[derive(Debug, Default, Clone, Copy, PartialEq, Eq)]
pub struct RxMetadata {
    /// Length of the received packet in bytes.
    pub pkt_len: u8,
    /// Received signal strength, dBm.
    pub rssi_dbm: i16,
    /// Signal-to-noise ratio, tenths of dB.
    pub snr_db_x10: i16,
}

/// Interrupt causes a PHY reports.
#[derive(Debug, Clone, Copy, PartialEq, Eq)]
pub enum PhyEvent {
    /// Transmission finished.
    TxDone,
    /// A packet was received.
    RxDone(RxMetadata),
    /// The receive window expired.
    RxTimeout,
    /// A packet failed its CRC.
    CrcError,
}

/// Payload of a PHY interrupt notification.
#[derive(Debug, Clone, Copy)]
pub struct PhyIrqPayload {
    /// What the PHY reported.
    pub event: PhyEvent,
    /// Reception metadata, meaningful for receptions.
    pub meta: RxMetadata,
}

} // verus!
