//! Protocol layers and their composition into an RF stack.

use vstd::prelude::*;
use crate::comms::buf::{Frame, FRAME_HEADROOM, MAX_FRAME};
use crate::comms::error::CommsError;
use crate::comms::phy::{copy_bytes, RadioMode, RfPhy, RfRxConfig, RfTxConfig};
use crate::comms::transport::{datagram_header, TransportAction, UnreliableTransport, TRANSPORT_HEADER_LEN};
use crate::comms::net::{accepts, net_header, Network, NET_HEADER_LEN};
use crate::comms::mac::noop::NoopMac;
use crate::comms::events::{
    rf_signal, PhyEvent, RfRxFramePayload, RfTxReqPayload, RxMetadata, RX_FRAME_MAX,
    RF_PHY_CRC_ERROR_SIG_VAL, RF_PHY_RX_DONE_SIG_VAL, RF_PHY_RX_TIMEOUT_SIG_VAL,
    RF_PHY_TX_DONE_SIG_VAL, RF_RX_FRAME_SIG_VAL, RF_RX_START_SIG_VAL, RF_TRANSPORT_TIMEOUT_SIG_VAL,
    RF_TX_DONE_SIG_VAL, RF_TX_FAIL_SIG_VAL, RF_TX_REQ_SIG_VAL,
};
use crate::qf::active::{ActiveBehavior, ActiveContext, ActiveObjectId};
use crate::qf::event::{DynEvent, Event, Payload};
use crate::qf::time::{TimeEvent, TimeEventConfig, TimeState};

verus! {

/// A protocol layer. Data flows in place through one shared [`Frame`].
///
/// Going down (transmit) a layer prepends its header and may append a
/// trailer; going up (receive) it validates and strips them, answering
/// `Ok(false)` to drop the frame silently.
pub trait Layer {
    /// What [`down`](Layer::down) does: relates the layer and the frame
    /// before the call to its result and to the layer and frame after it.
    spec fn down_spec(self, frame: Frame, r: Result<(), CommsError>, after: Self, frame_after: Frame) -> bool;

    /// What [`up`](Layer::up) does, in the same terms.
    spec fn up_spec(self, frame: Frame, r: Result<bool, CommsError>, after: Self, frame_after: Frame) -> bool;

    /// Egress: encapsulate the window in this layer's header and trailer.
    fn down(&mut self, frame: &mut Frame) -> (r: Result<(), CommsError>)
        requires
            old(frame).wf(),
        ensures
            final(frame).wf(),
            old(self).down_spec(*old(frame), r, *final(self), *final(frame)),
    ;

    /// Ingress: validate and strip this layer's header and trailer;
    /// `Ok(false)` drops the frame.
    fn up(&mut self, frame: &mut Frame) -> (r: Result<bool, CommsError>)
        requires
            old(frame).wf(),
        ensures
            final(frame).wf(),
            old(self).up_spec(*old(frame), r, *final(self), *final(frame)),
    ;

    /// What [`on_timeout`](Layer::on_timeout) does: relates the layer
    /// before the call to the action it asks for and to the layer after it.
    spec fn timeout_spec(self, a: TransportAction, after: Self) -> bool;

    /// Retransmit timer expiry; only reliable transports act on it.
    fn on_timeout(&mut self) -> (a: TransportAction)
        ensures
            old(self).timeout_spec(a, *final(self)),
    ;
}

/// Transport, network and MAC layers over a PHY, composed at compile time.
pub struct RfStack<T: Layer, N: Layer, M: Layer, P: RfPhy> {
    /// Transport layer.
    pub transport: T,
    /// Network layer.
    pub network: N,
    /// MAC layer.
    pub mac: M,
    /// Radio.
    pub phy: P,
}

/// `f` is a fresh frame holding `payload` below the full headroom.
pub open spec fn fresh_frame(f: Frame, payload: Seq<u8>) -> bool {
    f.wf() && f@ == payload && f.head() == FRAME_HEADROOM
}

/// Nothing was configured, handed over or sent between radio `p` and `p2`.
pub open spec fn phy_quiet<P: RfPhy>(p: P, p2: P) -> bool {
    &&& p2.tx_log() == p.tx_log()
    &&& p2.tx_tries() == p.tx_tries()
    &&& p2.cfg_tries() == p.cfg_tries()
}

/// Between radio `p` and `p2`, configuration `cfg` was handed over and,
/// if the radio accepted it, then `bytes`; `ok` says whether both were
/// accepted, and only then did `bytes` go on air.
pub open spec fn phy_sent<P: RfPhy>(p: P, p2: P, cfg: RfTxConfig, bytes: Seq<u8>, ok: bool) -> bool {
    ||| {
        &&& !ok
        &&& p2.cfg_tries() == p.cfg_tries().push((cfg, false))
        &&& p2.tx_tries() == p.tx_tries()
        &&& p2.tx_log() == p.tx_log()
    }
    ||| {
        &&& p2.cfg_tries() == p.cfg_tries().push((cfg, true))
        &&& p2.tx_tries() == p.tx_tries().push((bytes, ok))
        &&& p2.tx_log() == (if ok { p.tx_log().push(bytes) } else { p.tx_log() })
    }
}

/// Encoding `payload` down through transport, network and MAC of `s`
/// succeeds with frame `f`, leaving the layers as in `s2`.
pub open spec fn stack_down_ok<T: Layer, N: Layer, M: Layer, P: RfPhy>(
    s: RfStack<T, N, M, P>,
    s2: RfStack<T, N, M, P>,
    payload: Seq<u8>,
    f: Frame,
) -> bool {
    exists|f0: Frame, f1: Frame, f2: Frame|
        #![trigger s.transport.down_spec(f0, Ok::<(), CommsError>(()), s2.transport, f1), s.mac.down_spec(f2, Ok::<(), CommsError>(()), s2.mac, f)]
        {
            &&& fresh_frame(f0, payload)
            &&& f1.wf() && f2.wf() && f.wf()
            &&& s.transport.down_spec(f0, Ok::<(), CommsError>(()), s2.transport, f1)
            &&& s.network.down_spec(f1, Ok::<(), CommsError>(()), s2.network, f2)
            &&& s.mac.down_spec(f2, Ok::<(), CommsError>(()), s2.mac, f)
        }
}

/// Encoding `payload` down through `s` fails with `e` at the first layer
/// that fails; the layers below it are left as they were.
pub open spec fn stack_down_err<T: Layer, N: Layer, M: Layer, P: RfPhy>(
    s: RfStack<T, N, M, P>,
    s2: RfStack<T, N, M, P>,
    payload: Seq<u8>,
    e: CommsError,
) -> bool {
    ||| exists|f0: Frame, f1: Frame|
        #![trigger s.transport.down_spec(f0, Err::<(), CommsError>(e), s2.transport, f1)]
        {
            &&& fresh_frame(f0, payload)
            &&& s.transport.down_spec(f0, Err::<(), CommsError>(e), s2.transport, f1)
            &&& s2.network == s.network
            &&& s2.mac == s.mac
        }
    ||| exists|f0: Frame, f1: Frame, f2: Frame|
        #![trigger s.transport.down_spec(f0, Ok::<(), CommsError>(()), s2.transport, f1), s.network.down_spec(f1, Err::<(), CommsError>(e), s2.network, f2)]
        {
            &&& fresh_frame(f0, payload)
            &&& f1.wf()
            &&& s.transport.down_spec(f0, Ok::<(), CommsError>(()), s2.transport, f1)
            &&& s.network.down_spec(f1, Err::<(), CommsError>(e), s2.network, f2)
            &&& s2.mac == s.mac
        }
    ||| exists|f0: Frame, f1: Frame, f2: Frame, f3: Frame|
        #![trigger s.transport.down_spec(f0, Ok::<(), CommsError>(()), s2.transport, f1), s.mac.down_spec(f2, Err::<(), CommsError>(e), s2.mac, f3)]
        {
            &&& fresh_frame(f0, payload)
            &&& f1.wf() && f2.wf()
            &&& s.transport.down_spec(f0, Ok::<(), CommsError>(()), s2.transport, f1)
            &&& s.network.down_spec(f1, Ok::<(), CommsError>(()), s2.network, f2)
            &&& s.mac.down_spec(f2, Err::<(), CommsError>(e), s2.mac, f3)
        }
}

/// The outcome of decoding `f`, the frame the transport layer left, into
/// a fresh frame.
pub open spec fn delivered(f: Frame, r: Result<Option<Frame>, CommsError>) -> bool {
    if f@.len() <= MAX_FRAME - FRAME_HEADROOM {
        r matches Ok(Some(out)) && fresh_frame(out, f@)
    } else {
        r == Err::<Option<Frame>, CommsError>(CommsError::BufferTooSmall)
    }
}

/// Decoding `raw` up through MAC, network and transport of `s` gives `r`
/// and leaves `raw_after` and the layers of `s2`: a layer's error ends the
/// walk with that error, a drop with `Ok(None)`, and the layers above it
/// are left as they were.
pub open spec fn stack_up<T: Layer, N: Layer, M: Layer, P: RfPhy>(
    s: RfStack<T, N, M, P>,
    s2: RfStack<T, N, M, P>,
    raw: Frame,
    raw_after: Frame,
    r: Result<Option<Frame>, CommsError>,
) -> bool {
    exists|r1: Result<bool, CommsError>, f1: Frame|
        #![trigger s.mac.up_spec(raw, r1, s2.mac, f1)]
        {
            &&& s.mac.up_spec(raw, r1, s2.mac, f1)
            &&& match r1 {
                Err(e) => r == Err::<Option<Frame>, CommsError>(e) && raw_after == f1
                    && s2.network == s.network && s2.transport == s.transport,
                Ok(false) => r == Ok::<Option<Frame>, CommsError>(None) && raw_after == f1
                    && s2.network == s.network && s2.transport == s.transport,
                Ok(true) => exists|r2: Result<bool, CommsError>, f2: Frame|
                    #![trigger s.network.up_spec(f1, r2, s2.network, f2)]
                    {
                        &&& s.network.up_spec(f1, r2, s2.network, f2)
                        &&& match r2 {
                            Err(e) => r == Err::<Option<Frame>, CommsError>(e) && raw_after == f2
                                && s2.transport == s.transport,
                            Ok(false) => r == Ok::<Option<Frame>, CommsError>(None) && raw_after == f2
                                && s2.transport == s.transport,
                            Ok(true) => exists|r3: Result<bool, CommsError>, f3: Frame|
                                #![trigger s.transport.up_spec(f2, r3, s2.transport, f3)]
                                {
                                    &&& s.transport.up_spec(f2, r3, s2.transport, f3)
                                    &&& raw_after == f3
                                    &&& match r3 {
                                        Err(e) => r == Err::<Option<Frame>, CommsError>(e),
                                        Ok(false) => r == Ok::<Option<Frame>, CommsError>(None),
                                        Ok(true) => delivered(f3, r),
                                    }
                                },
                        }
                    },
            }
        }
}

impl<T: Layer, N: Layer, M: Layer, P: RfPhy> RfStack<T, N, M, P> {
    /// The stack of the given layers.
    pub fn new(transport: T, network: N, mac: M, phy: P) -> (s: RfStack<T, N, M, P>)
        ensures
            s.transport == transport,
            s.network == network,
            s.mac == mac,
            s.phy == phy,
    {
        RfStack { transport, network, mac, phy }
    }

    /// Encodes `payload` down through transport, network and MAC into a
    /// frame ready for the radio. A payload that does not fit above the
    /// headroom fails with [`CommsError::BufferTooSmall`] before any layer
    /// runs; otherwise the first failing layer's error is returned.
    pub fn build_frame(&mut self, payload: &[u8]) -> (r: Result<Frame, CommsError>)
        ensures
            final(self).phy == old(self).phy,
            payload@.len() > MAX_FRAME - FRAME_HEADROOM ==> r == Err::<Frame, CommsError>(
                CommsError::BufferTooSmall,
            ) && *final(self) == *old(self),
            r matches Ok(f) ==> f.wf() && stack_down_ok(*old(self), *final(self), payload@, f),
            payload@.len() <= MAX_FRAME - FRAME_HEADROOM ==> (r matches Err(e) ==> stack_down_err(
                *old(self),
                *final(self),
                payload@,
                e,
            )),
    {
        let mut frame = Frame::new();
        match frame.write_payload(payload) {
            Ok(()) => {},
            Err(e) => {
                return Err(e);
            },
        }
        let ghost f0 = frame;
        assert(fresh_frame(f0, payload@));
        let r_transport = self.transport.down(&mut frame);
        match r_transport {
            Ok(u) => {
                assert(u == ());
            },
            Err(e) => {
                assert(old(self).transport.down_spec(f0, Err::<(), CommsError>(e), self.transport, frame));
                assert(stack_down_err(*old(self), *self, payload@, e));
                return Err(e);
            },
        }
        let ghost f1 = frame;
        assert(old(self).transport.down_spec(f0, Ok::<(), CommsError>(()), self.transport, f1));
        let r_network = self.network.down(&mut frame);
        match r_network {
            Ok(u) => {
                assert(u == ());
            },
            Err(e) => {
                assert(old(self).network.down_spec(f1, Err::<(), CommsError>(e), self.network, frame));
                assert(old(self).transport.down_spec(f0, Ok::<(), CommsError>(()), self.transport, f1));
                assert(stack_down_err(*old(self), *self, payload@, e));
                return Err(e);
            },
        }
        let ghost f2 = frame;
        assert(old(self).network.down_spec(f1, Ok::<(), CommsError>(()), self.network, f2));
        let r_mac = self.mac.down(&mut frame);
        match r_mac {
            Ok(u) => {
                assert(u == ());
            },
            Err(e) => {
                assert(old(self).mac.down_spec(f2, Err::<(), CommsError>(e), self.mac, frame));
                assert(old(self).transport.down_spec(f0, Ok::<(), CommsError>(()), self.transport, f1));
                assert(old(self).network.down_spec(f1, Ok::<(), CommsError>(()), self.network, f2));
                assert(stack_down_err(*old(self), *self, payload@, e));
                return Err(e);
            },
        }
        assert(old(self).mac.down_spec(f2, Ok::<(), CommsError>(()), self.mac, frame));
        assert(old(self).transport.down_spec(f0, Ok::<(), CommsError>(()), self.transport, f1));
        assert(old(self).network.down_spec(f1, Ok::<(), CommsError>(()), self.network, f2));
        assert(stack_down_ok(*old(self), *self, payload@, frame));
        Ok(frame)
    }

    /// Encodes `payload` and hands it to the radio with `tx_cfg`.
    pub fn transmit(&mut self, payload: &[u8], tx_cfg: &RfTxConfig) -> (r: Result<(), CommsError>)
        ensures
            payload@.len() > MAX_FRAME - FRAME_HEADROOM ==> r == Err::<(), CommsError>(
                CommsError::BufferTooSmall,
            ) && *final(self) == *old(self),
            payload@.len() <= MAX_FRAME - FRAME_HEADROOM ==> {
                ||| r matches Err(e) && stack_down_err(*old(self), *final(self), payload@, e)
                    && final(self).phy == old(self).phy
                ||| exists|f: Frame|
                    #![trigger stack_down_ok(*old(self), *final(self), payload@, f)]
                    stack_down_ok(*old(self), *final(self), payload@, f)
                    && final(self).phy.tx_log() == (if r is Ok {
                        old(self).phy.tx_log().push(f@)
                    } else {
                        old(self).phy.tx_log()
                    }) && phy_sent(old(self).phy, final(self).phy, *tx_cfg, f@, r is Ok)
            },
    {
        let frame = match self.build_frame(payload) {
            Ok(f) => f,
            Err(e) => {
                return Err(e);
            },
        };
        let ghost layers = *self;
        match self.phy.configure_tx(tx_cfg) {
            Ok(()) => {},
            Err(e) => {
                assert(stack_down_ok(*old(self), layers, payload@, frame));
                assert(self.transport == layers.transport && self.network == layers.network && self.mac == layers.mac);
                assert(stack_down_ok(*old(self), *self, payload@, frame));
                return Err(e);
            },
        }
        let r = self.phy.transmit(frame.phy_bytes());
        assert(stack_down_ok(*old(self), layers, payload@, frame));
        assert(self.transport == layers.transport && self.network == layers.network && self.mac == layers.mac);
        assert(stack_down_ok(*old(self), *self, payload@, frame));
        r
    }

    /// Decodes a received frame up through MAC, network and transport. A
    /// layer that drops the frame yields `Ok(None)`; otherwise the payload
    /// left in `raw_frame` is returned in a fresh frame.
    pub fn receive_raw(&mut self, raw_frame: &mut Frame) -> (r: Result<Option<Frame>, CommsError>)
        requires
            old(raw_frame).wf(),
        ensures
            final(raw_frame).wf(),
            final(self).phy == old(self).phy,
            stack_up(*old(self), *final(self), *old(raw_frame), *final(raw_frame), r),
            r matches Ok(Some(f)) ==> f.wf() && f@ == final(raw_frame)@ && f.head() == FRAME_HEADROOM,
    {
        let ghost raw0 = *raw_frame;
        let r1 = self.mac.up(raw_frame);
        let ghost raw1 = *raw_frame;
        assert(old(self).mac.up_spec(raw0, r1, self.mac, raw1));
        match r1 {
            Ok(true) => {},
            Ok(false) => {
                assert(stack_up(*old(self), *self, raw0, *raw_frame, Ok::<Option<Frame>, CommsError>(None)));
                return Ok(None);
            },
            Err(e) => {
                assert(stack_up(*old(self), *self, raw0, *raw_frame, Err::<Option<Frame>, CommsError>(e)));
                return Err(e);
            },
        }
        let r2 = self.network.up(raw_frame);
        let ghost raw2 = *raw_frame;
        assert(old(self).network.up_spec(raw1, r2, self.network, raw2));
        assert(old(self).mac.up_spec(raw0, r1, self.mac, raw1));
        match r2 {
            Ok(true) => {},
            Ok(false) => {
                assert(stack_up(*old(self), *self, raw0, *raw_frame, Ok::<Option<Frame>, CommsError>(None)));
                return Ok(None);
            },
            Err(e) => {
                assert(stack_up(*old(self), *self, raw0, *raw_frame, Err::<Option<Frame>, CommsError>(e)));
                return Err(e);
            },
        }
        let r3 = self.transport.up(raw_frame);
        let ghost raw3 = *raw_frame;
        assert(old(self).transport.up_spec(raw2, r3, self.transport, raw3));
        assert(old(self).network.up_spec(raw1, r2, self.network, raw2));
        assert(old(self).mac.up_spec(raw0, r1, self.mac, raw1));
        match r3 {
            Ok(true) => {},
            Ok(false) => {
                assert(stack_up(*old(self), *self, raw0, *raw_frame, Ok::<Option<Frame>, CommsError>(None)));
                return Ok(None);
            },
            Err(e) => {
                assert(stack_up(*old(self), *self, raw0, *raw_frame, Err::<Option<Frame>, CommsError>(e)));
                return Err(e);
            },
        }
        let mut out = Frame::new();
        match out.write_payload(raw_frame.payload()) {
            Ok(()) => {},
            Err(e) => {
                assert(delivered(raw3, Err::<Option<Frame>, CommsError>(e)));
                assert(stack_up(*old(self), *self, raw0, *raw_frame, Err::<Option<Frame>, CommsError>(e)));
                return Err(e);
            },
        }
        assert(delivered(raw3, Ok::<Option<Frame>, CommsError>(Some(out))));
        assert(stack_up(*old(self), *self, raw0, *raw_frame, Ok::<Option<Frame>, CommsError>(Some(out))));
        Ok(Some(out))
    }
}

/// Law: a payload that a stack of unreliable transport, network and
/// pass-through MAC encodes into a frame is decoded from that frame, by any
/// stack of the same layers, into a fresh frame holding the same payload.
pub proof fn lemma_stack_round_trip<P: RfPhy, Q: RfPhy>(
    sender: RfStack<UnreliableTransport, Network, NoopMac, P>,
    sender_after: RfStack<UnreliableTransport, Network, NoopMac, P>,
    payload: Seq<u8>,
    f: Frame,
    receiver: RfStack<UnreliableTransport, Network, NoopMac, Q>,
    receiver_after: RfStack<UnreliableTransport, Network, NoopMac, Q>,
    raw_after: Frame,
    r: Result<Option<Frame>, CommsError>,
)
    requires
        stack_down_ok(sender, sender_after, payload, f),
        stack_up(receiver, receiver_after, f, raw_after, r),
    ensures
        r matches Ok(Some(out)) && fresh_frame(out, payload),
{
    let (f0, f1, f2) = choose|f0: Frame, f1: Frame, f2: Frame|
        {
            &&& fresh_frame(f0, payload)
            &&& sender.transport.down_spec(f0, Ok::<(), CommsError>(()), sender_after.transport, f1)
            &&& sender.network.down_spec(f1, Ok::<(), CommsError>(()), sender_after.network, f2)
            &&& sender.mac.down_spec(f2, Ok::<(), CommsError>(()), sender_after.mac, f)
        };
    f0.lemma_wf();
    let seg = datagram_header(sender.transport@, payload.len()) + payload;
    assert(f1@ == seg);
    assert(f@ == net_header(sender.network.addr()) + seg);
    assert(f@.subrange(NET_HEADER_LEN as int, f@.len() as int) =~= seg);
    assert(accepts(receiver.network.addr(), f@.subrange(0, NET_HEADER_LEN as int)));
    assert(seg.subrange(TRANSPORT_HEADER_LEN as int, seg.len() as int) =~= payload);
}

/// Ticks of the acknowledgement window of a reliable transmission.
pub const RETRANSMIT_TIMEOUT_TICKS: u64 = 10;

/// Ticks of the transmit watchdog (covers air time and driver overhead).
pub const TX_WATCHDOG_TICKS: u64 = 25;

/// Receive window opened after a transmission, ms.
pub const RX_WINDOW_MS: u32 = 1000;

/// Port reported for frames delivered to the application.
pub const RX_FRAME_PORT: u8 = 1;

/// Most PHY events handled by one [`RfStackAO::pump`].
pub const MAX_PUMP_EVENTS: usize = 64;

/// State of the RF stack active object.
#[derive(Debug, Clone, Copy, PartialEq, Eq, Structural)]
pub enum RfAoState {
    /// Nothing in progress.
    Idle,
    /// An unreliable transmission is on air.
    Transmitting,
    /// A reliable transmission awaits its acknowledgement.
    WaitingAck,
    /// The receiver is open.
    Listening,
    /// A reception is being processed.
    ProcessingRx,
}

/// Whether a new transmit request must wait.
pub open spec fn busy(s: RfAoState) -> bool {
    !(s == RfAoState::Idle || s == RfAoState::Listening)
}

/// `e` delivers to the application a frame that the layers of `s` (left
/// as in `s2`) decoded from some received frame: the frame's payload, on
/// [`RX_FRAME_PORT`].
pub open spec fn delivers_decoded<T: Layer, N: Layer, M: Layer, P: RfPhy>(
    s: RfStack<T, N, M, P>,
    s2: RfStack<T, N, M, P>,
    e: DynEvent,
) -> bool {
    &&& e.header.signal@ == RF_RX_FRAME_SIG_VAL
    &&& *e.payload matches Payload::RxFrame(p) && p.port == RX_FRAME_PORT && exists|raw: Frame, raw_after: Frame, out: Frame|
        #![trigger stack_up(s, s2, raw, raw_after, Ok::<Option<Frame>, CommsError>(Some(out)))]
        stack_up(s, s2, raw, raw_after, Ok::<Option<Frame>, CommsError>(Some(out))) && p.data@ == out@
}

/// `e` hands the application the received `data` on [`RX_FRAME_PORT`],
/// with the signal quality of `meta`.
pub open spec fn rx_frame_event(e: DynEvent, data: Seq<u8>, meta: RxMetadata) -> bool {
    &&& e.header.signal@ == RF_RX_FRAME_SIG_VAL
    &&& *e.payload matches Payload::RxFrame(p) && p.data@ == data && p.port == RX_FRAME_PORT && p.rssi == meta.rssi_dbm
        && p.snr == meta.snr_db_x10
}

/// `e` is a signal-only event with signal value `sig`.
pub open spec fn is_signal_event(e: DynEvent, sig: u16) -> bool {
    e.header.signal@ == sig && *e.payload == Payload::Empty
}

/// Active object driving an [`RfStack`]: transmit requests go down the
/// stack (one in flight, one more held back), PHY completions and receptions
/// are turned into notifications to the application active object.
pub struct RfStackAO<T: Layer, N: Layer, M: Layer, P: RfPhy> {
    stack: RfStack<T, N, M, P>,
    tx_cfg: RfTxConfig,
    rx_cfg: RfRxConfig,
    retransmit_timer: Option<TimeEvent>,
    retransmit_frame: Option<Vec<u8>>,
    rx_frame: Frame,
    state: RfAoState,
    app_ao: ActiveObjectId,
    pending_tx: Option<RfTxReqPayload>,
    start_error: Option<CommsError>,
}

impl<T: Layer, N: Layer, M: Layer, P: RfPhy> RfStackAO<T, N, M, P> {
    /// Current state.
    pub closed spec fn ao_state(&self) -> RfAoState {
        self.state
    }

    /// The request held back while busy, if any.
    pub closed spec fn pending(&self) -> Option<RfTxReqPayload> {
        self.pending_tx
    }

    /// Encoded bytes kept for retransmission, if any.
    pub closed spec fn saved(&self) -> Option<Seq<u8>> {
        match self.retransmit_frame {
            Some(v) => Some(v@),
            None => None,
        }
    }

    /// The application active object notified of outcomes.
    pub closed spec fn app(&self) -> ActiveObjectId {
        self.app_ao
    }

    /// The error the radio reported while starting, if any.
    pub closed spec fn start_fault(&self) -> Option<CommsError> {
        self.start_error
    }

    /// The stack driven.
    pub closed spec fn layers(&self) -> RfStack<T, N, M, P> {
        self.stack
    }

    /// The retransmit timer, once started.
    pub closed spec fn timer(&self) -> Option<TimeEvent> {
        self.retransmit_timer
    }

    /// Well-formedness of the receive buffer.
    pub closed spec fn wf(&self) -> bool {
        self.rx_frame.wf()
    }

    /// The frames handed to the air so far, oldest first.
    pub closed spec fn air(&self) -> Seq<Seq<u8>> {
        self.stack.phy.tx_log()
    }

    /// The receive buffer.
    pub closed spec fn rx_buf(&self) -> Frame {
        self.rx_frame
    }

    /// Handling the received frame `raw` took `self` to `after` while the
    /// events sent grew from `sent` to `sent_after`: the stack decoded `raw`
    /// (result `res`); a decoded frame ends a reliable wait, which the
    /// application hears as a completion (then the object is idle and keeps
    /// no frame), and a decoded payload of at most [`RX_FRAME_MAX`] bytes is
    /// handed to the application; nothing else is sent, and a listening or
    /// processing object goes idle.
    pub open spec fn rx_handled(
        self,
        after: Self,
        sent: Seq<(ActiveObjectId, DynEvent)>,
        sent_after: Seq<(ActiveObjectId, DynEvent)>,
        raw: Frame,
        meta: RxMetadata,
    ) -> bool {
        exists|raw_after: Frame, res: Result<Option<Frame>, CommsError>|
            #![trigger stack_up(self.layers(), after.layers(), raw, raw_after, res)]
            {
                let decoded = res matches Ok(Some(_));
                let done = decoded && self.ao_state() == RfAoState::WaitingAck;
                let deliver = res matches Ok(Some(out)) && out@.len() <= RX_FRAME_MAX;
                &&& stack_up(self.layers(), after.layers(), raw, raw_after, res)
                &&& sent_after.len() == sent.len() + (if done { 1int } else { 0int }) + (if deliver { 1int } else { 0int })
                &&& sent_after.subrange(0, sent.len() as int) == sent
                &&& done ==> sent_after[sent.len() as int].0 == self.app() && is_signal_event(
                    sent_after[sent.len() as int].1,
                    RF_TX_DONE_SIG_VAL,
                )
                &&& done ==> after.saved() is None
                &&& deliver ==> sent_after.last().0 == self.app() && rx_frame_event(
                    sent_after.last().1,
                    res->Ok_0->Some_0@,
                    meta,
                )
                &&& after.ao_state() == (if done || self.ao_state() == RfAoState::Listening || self.ao_state()
                    == RfAoState::ProcessingRx {
                    RfAoState::Idle
                } else {
                    self.ao_state()
                })
            }
    }

    /// The transmit configuration handed to the radio before each frame.
    pub closed spec fn txc(&self) -> RfTxConfig {
        self.tx_cfg
    }

    /// Starting to send `data` took `self` to `after`, `idle` being the
    /// state the object was in when it started: a payload too long for a
    /// frame, or one a layer refused to encode, reaches no radio and leaves
    /// the state `idle`; otherwise the stack encoded it into a frame, the
    /// radio was given the transmit configuration and then (if it took it)
    /// the frame, and the object awaits an acknowledgement (`reliable`) or
    /// the completion exactly when the radio accepted both, keeping the
    /// frame for retransmission; it stays `idle` otherwise.
    pub open spec fn tx_started(self, after: Self, data: Seq<u8>, reliable: bool, idle: RfAoState) -> bool {
        &&& data.len() > MAX_FRAME - FRAME_HEADROOM ==> {
            &&& after.layers().transport == self.layers().transport
            &&& after.layers().network == self.layers().network
            &&& after.layers().mac == self.layers().mac
            &&& phy_quiet(self.layers().phy, after.layers().phy)
            &&& after.ao_state() == idle
        }
        &&& data.len() <= MAX_FRAME - FRAME_HEADROOM ==> ({
            ||| exists|e: CommsError| #![trigger stack_down_err(self.layers(), after.layers(), data, e)]
                {
                    &&& stack_down_err(self.layers(), after.layers(), data, e)
                    &&& phy_quiet(self.layers().phy, after.layers().phy)
                    &&& after.ao_state() == idle
                }
            ||| exists|f: Frame, ok: bool|
                #![trigger stack_down_ok(self.layers(), after.layers(), data, f), phy_sent(self.layers().phy, after.layers().phy, self.txc(), f@, ok)]
                {
                    &&& stack_down_ok(self.layers(), after.layers(), data, f)
                    &&& phy_sent(self.layers().phy, after.layers().phy, self.txc(), f@, ok)
                    &&& ok ==> after.saved() == Some(f@) && after.ao_state() == (if reliable {
                        RfAoState::WaitingAck
                    } else {
                        RfAoState::Transmitting
                    })
                    &&& !ok ==> after.ao_state() == idle
                }
        })
        &&& after.txc() == self.txc()
    }

    /// Sending `data` took `self` to `after`: the stack encoded it into a
    /// frame, which went on air and is kept for retransmission, and the
    /// object now awaits an acknowledgement (`reliable`) or the completion.
    pub closed spec fn sent_request(self, after: Self, data: Seq<u8>, reliable: bool) -> bool {
        exists|f: Frame|
            #![trigger stack_down_ok(self.stack, after.stack, data, f)]
            {
                &&& stack_down_ok(self.stack, after.stack, data, f)
                &&& after.air() == self.air().push(f@)
                &&& after.saved() == Some(f@)
                &&& after.ao_state() == (if reliable { RfAoState::WaitingAck } else { RfAoState::Transmitting })
            }
    }

    /// An idle active object over `stack`, notifying `app_ao`.
    pub fn new(stack: RfStack<T, N, M, P>, tx_cfg: RfTxConfig, rx_cfg: RfRxConfig, app_ao: ActiveObjectId) -> (a: RfStackAO<T, N, M, P>)
        ensures
            a.wf(),
            a.ao_state() == RfAoState::Idle,
            a.pending() is None,
            a.saved() is None,
            a.app() == app_ao,
            a.start_fault() is None,
    {
        RfStackAO {
            stack,
            tx_cfg,
            rx_cfg,
            retransmit_timer: None,
            retransmit_frame: None,
            rx_frame: Frame::new(),
            state: RfAoState::Idle,
            app_ao,
            pending_tx: None,
            start_error: None,
        }
    }

    /// The error the radio reported while the object started, if any: the
    /// radio did not come up and the port must stop the system.
    pub fn start_error(&self) -> (e: Option<CommsError>)
        ensures
            e == self.start_fault(),
    {
        self.start_error
    }

    /// Current state.
    pub fn state(&self) -> (s: RfAoState)
        ensures
            s == self.ao_state(),
    {
        self.state
    }

    /// Whether a request is held back.
    pub fn has_pending_tx(&self) -> (b: bool)
        ensures
            b == self.pending() is Some,
    {
        self.pending_tx.is_some()
    }

    /// The stack.
    pub fn stack(&self) -> (s: &RfStack<T, N, M, P>)
        ensures
            *s == self.layers(),
    {
        &self.stack
    }

    /// The stack, mutably; nothing else changes.
    pub fn stack_mut(&mut self) -> (s: &mut RfStack<T, N, M, P>)
        ensures
            *s == old(self).layers(),
            final(self).layers() == *final(s),
            final(self).ao_state() == old(self).ao_state(),
            final(self).pending() == old(self).pending(),
            final(self).saved() == old(self).saved(),
            final(self).app() == old(self).app(),
            final(self).wf() == old(self).wf(),
            final(self).start_fault() == old(self).start_fault(),
            final(self).timer() == old(self).timer(),
    {
        &mut self.stack
    }

    /// The retransmit timer, once started.
    pub fn retransmit_timer(&self) -> (t: &Option<TimeEvent>)
        ensures
            *t == self.timer(),
    {
        &self.retransmit_timer
    }

    fn arm_timer(&mut self, ticks: u64)
        ensures
            old(self).timer() is None ==> final(self).timer() is None,
            old(self).timer() matches Some(t) ==> final(self).timer() matches Some(t2) && t2.state() == (TimeState {
                remaining: ticks,
                armed: true,
                disarmed_flag: t.state().disarmed_flag,
                interval: None,
            }) && t2.target_of() == t.target_of() && t2.signal_of() == t.signal_of() && t2.rate_of() == t.rate_of()
                && t2.meta_of() == t.meta_of(),
            final(self).saved() == old(self).saved(),
            final(self).start_fault() == old(self).start_fault(),
            final(self).txc() == old(self).txc(),
            final(self).ao_state() == old(self).ao_state(),
            final(self).pending() == old(self).pending(),
            final(self).saved() == old(self).saved(),
            final(self).app() == old(self).app(),
            final(self).wf() == old(self).wf(),
            final(self).stack == old(self).stack,
    {
        match &mut self.retransmit_timer {
            Some(t) => t.arm(ticks, None),
            None => {},
        }
    }

    fn disarm_timer(&mut self)
        ensures
            old(self).timer() is None ==> final(self).timer() is None,
            old(self).timer() matches Some(t) ==> final(self).timer() matches Some(t2) && (t.state().armed
                ==> t2.state() == (TimeState {
                remaining: 0,
                armed: false,
                disarmed_flag: true,
                interval: t.state().interval,
            })) && (!t.state().armed ==> t2.state() == t.state()) && t2.target_of() == t.target_of()
                && t2.signal_of() == t.signal_of() && t2.rate_of() == t.rate_of() && t2.meta_of() == t.meta_of(),
            final(self).saved() == old(self).saved(),
            final(self).start_fault() == old(self).start_fault(),
            final(self).txc() == old(self).txc(),
            final(self).ao_state() == old(self).ao_state(),
            final(self).pending() == old(self).pending(),
            final(self).saved() == old(self).saved(),
            final(self).app() == old(self).app(),
            final(self).wf() == old(self).wf(),
            final(self).stack == old(self).stack,
    {
        match &mut self.retransmit_timer {
            Some(t) => t.disarm(),
            None => {},
        }
    }

    /// Encodes and transmits a request: reliable requests then await their
    /// acknowledgement, unreliable ones their completion. A failure to
    /// encode or configure leaves the state as it was.
    fn start_tx(&mut self, req: &RfTxReqPayload)
        ensures
            ({
                ||| final(self).ao_state() == old(self).ao_state() && final(self).air() == old(self).air()
                ||| old(self).sent_request(*final(self), req.data@, req.reliable)
            }),
            req.data@.len() > MAX_FRAME - FRAME_HEADROOM ==> *final(self) == *old(self),
            req.data@.len() <= MAX_FRAME - FRAME_HEADROOM ==> ({
                ||| exists|e: CommsError| #![trigger stack_down_err(old(self).layers(), final(self).layers(), req.data@, e)]
                    {
                        &&& stack_down_err(old(self).layers(), final(self).layers(), req.data@, e)
                        &&& final(self).ao_state() == old(self).ao_state()
                        &&& final(self).air() == old(self).air()
                        &&& final(self).saved() == old(self).saved()
                    }
                ||| exists|f: Frame| #![trigger stack_down_ok(old(self).layers(), final(self).layers(), req.data@, f)]
                    {
                        &&& stack_down_ok(old(self).layers(), final(self).layers(), req.data@, f)
                        &&& final(self).ao_state() == old(self).ao_state()
                        &&& final(self).air() == old(self).air()
                    }
                ||| old(self).sent_request(*final(self), req.data@, req.reliable)
            }),
            old(self).tx_started(*final(self), req.data@, req.reliable, old(self).ao_state()),
            final(self).pending() == old(self).pending(),
            final(self).app() == old(self).app(),
            final(self).wf() == old(self).wf(),
    {
        let frame = match self.stack.build_frame(req.data.as_slice()) {
            Ok(f) => f,
            Err(e) => {
                proof {
                    if req.data@.len() <= MAX_FRAME - FRAME_HEADROOM {
                        assert(stack_down_err(old(self).layers(), self.layers(), req.data@, e));
                    }
                    assert(old(self).tx_started(*self, req.data@, req.reliable, old(self).ao_state()));
                }
                return;
            },
        };
        let ghost built = self.stack;
        self.retransmit_frame = Some(copy_bytes(frame.phy_bytes()));
        match self.stack.phy.configure_tx(&self.tx_cfg) {
            Ok(()) => {},
            Err(_) => {
                proof {
                    assert(stack_down_ok(old(self).stack, built, req.data@, frame));
                    assert(self.stack.transport == built.transport && self.stack.network == built.network
                        && self.stack.mac == built.mac);
                    assert(stack_down_ok(old(self).layers(), self.layers(), req.data@, frame));
                    assert(phy_sent(old(self).layers().phy, self.layers().phy, old(self).txc(), frame@, false));
                    assert(old(self).tx_started(*self, req.data@, req.reliable, old(self).ao_state()));
                }
                return;
            },
        }
        let ghost layers = self.stack;
        match self.stack.phy.transmit(frame.phy_bytes()) {
            Ok(()) => {
                self.state = if req.reliable {
                    RfAoState::WaitingAck
                } else {
                    RfAoState::Transmitting
                };
                self.arm_timer(TX_WATCHDOG_TICKS);
                proof {
                    assert(stack_down_ok(old(self).stack, layers, req.data@, frame));
                    assert(self.stack.transport == layers.transport && self.stack.network == layers.network
                        && self.stack.mac == layers.mac);
                    assert(stack_down_ok(old(self).stack, self.stack, req.data@, frame));
                    assert(old(self).sent_request(*self, req.data@, req.reliable));
                    assert(phy_sent(old(self).layers().phy, self.layers().phy, old(self).txc(), frame@, true));
                    assert(old(self).tx_started(*self, req.data@, req.reliable, old(self).ao_state()));
                }
            },
            Err(_) => {
                self.retransmit_frame = None;
                proof {
                    assert(stack_down_ok(old(self).stack, layers, req.data@, frame));
                    assert(self.stack.transport == layers.transport && self.stack.network == layers.network
                        && self.stack.mac == layers.mac);
                    assert(stack_down_ok(old(self).layers(), self.layers(), req.data@, frame));
                    assert(phy_sent(old(self).layers().phy, self.layers().phy, old(self).txc(), frame@, false));
                    assert(old(self).tx_started(*self, req.data@, req.reliable, old(self).ao_state()));
                }
            },
        }
    }

    /// Sends the held-back request once nothing is in flight.
    fn drain_pending(&mut self)
        ensures
            busy(old(self).ao_state()) || old(self).pending() is None ==> *final(self) == *old(self),
            busy(old(self).ao_state()) || old(self).pending() is None ==> final(self).pending() == old(self).pending()
                && final(self).ao_state() == old(self).ao_state() && final(self).air() == old(self).air(),
            !busy(old(self).ao_state()) && old(self).pending() is Some ==> final(self).pending() is None && ({
                let req = old(self).pending()->Some_0;
                ||| final(self).ao_state() == old(self).ao_state() && final(self).air() == old(self).air()
                ||| old(self).sent_request(*final(self), req.data@, req.reliable)
            }),
            !busy(old(self).ao_state()) && old(self).pending() is Some ==> ({
                let req = old(self).pending()->Some_0;
                old(self).tx_started(*final(self), req.data@, req.reliable, old(self).ao_state())
            }),
            final(self).app() == old(self).app(),
            final(self).wf() == old(self).wf(),
    {
        if self.state == RfAoState::Idle || self.state == RfAoState::Listening {
            match self.pending_tx.take() {
                Some(req) => {
                    let ghost mid = *self;
                    self.start_tx(&req);
                    proof {
                        old(self).lemma_tx_started_from(mid, *self, req.data@, req.reliable, old(self).ao_state());
                    }
                },
                None => {},
            }
        }
    }

    /// A transmit request: sent at once when nothing is in flight, held
    /// back when the slot is free, dropped otherwise.
    fn handle_tx_req(&mut self, req: RfTxReqPayload)
        ensures
            busy(old(self).ao_state()) && old(self).pending() is None ==> final(self).pending() == Some(req)
                && final(self).ao_state() == old(self).ao_state(),
            busy(old(self).ao_state()) && old(self).pending() is Some ==> final(self).pending() == old(self).pending()
                && final(self).ao_state() == old(self).ao_state(),
            busy(old(self).ao_state()) ==> final(self).air() == old(self).air(),
            !busy(old(self).ao_state()) ==> final(self).pending() == old(self).pending() && ({
                ||| final(self).ao_state() == old(self).ao_state() && final(self).air() == old(self).air()
                ||| old(self).sent_request(*final(self), req.data@, req.reliable)
            }),
            !busy(old(self).ao_state()) ==> old(self).tx_started(*final(self), req.data@, req.reliable, old(self).ao_state()),
            final(self).app() == old(self).app(),
            final(self).wf() == old(self).wf(),
    {
        if self.state != RfAoState::Idle && self.state != RfAoState::Listening {
            if self.pending_tx.is_none() {
                self.pending_tx = Some(req);
            }
            return;
        }
        self.start_tx(&req);
    }

    /// The PHY finished sending: a reliable transmission keeps waiting for
    /// its acknowledgement (with a fresh window); otherwise the application
    /// is told the transmission is done, the receiver opens and a held-back
    /// request goes out.
    fn handle_tx_done(&mut self, ctx: &mut ActiveContext)
        ensures
            old(self).ao_state() == RfAoState::WaitingAck ==> final(self).ao_state() == RfAoState::WaitingAck
                && final(self).pending() == old(self).pending() && final(ctx).sent() == old(ctx).sent(),
            old(self).ao_state() != RfAoState::WaitingAck ==> final(ctx).sent().len() == old(ctx).sent().len() + 1
                && final(ctx).sent().drop_last() == old(ctx).sent()
                && final(ctx).sent().last().0 == old(self).app()
                && is_signal_event(final(ctx).sent().last().1, RF_TX_DONE_SIG_VAL)
                && (old(self).pending() is None ==> final(self).ao_state() == RfAoState::Listening)
                && (old(self).pending() is Some ==> final(self).pending() is None)
                && (old(self).pending() matches Some(req) ==> old(self).tx_started(
                    *final(self),
                    req.data@,
                    req.reliable,
                    RfAoState::Listening,
                )),
            final(self).app() == old(self).app(),
            final(self).wf() == old(self).wf(),
            final(ctx).owner() == old(ctx).owner(),
    {
        self.disarm_timer();
        if self.state == RfAoState::WaitingAck {
            self.arm_timer(RETRANSMIT_TIMEOUT_TICKS);
            return;
        }
        ctx.post(self.app_ao, Event::empty_dyn(rf_signal(RF_TX_DONE_SIG_VAL)));
        let _ = self.stack.phy.set_mode(RadioMode::Rx { timeout_ms: Some(RX_WINDOW_MS) });
        self.state = RfAoState::Listening;
        let ghost mid = *self;
        self.drain_pending();
        proof {
            if old(self).pending() is Some {
                let req = old(self).pending()->Some_0;
                old(self).lemma_tx_started_from(mid, *self, req.data@, req.reliable, RfAoState::Listening);
            }
        }
    }

    /// The acknowledgement window expired: act on the transport's decision.
    fn handle_transport_timeout(&mut self, ctx: &mut ActiveContext)
        ensures
            final(self).app() == old(self).app(),
            final(self).wf() == old(self).wf(),
            final(ctx).owner() == old(ctx).owner(),
            final(ctx).sent() == old(ctx).sent() || (final(ctx).sent().len() == old(ctx).sent().len() + 1
                && final(ctx).sent().drop_last() == old(ctx).sent() && final(ctx).sent().last().0 == old(self).app()
                && (is_signal_event(final(ctx).sent().last().1, RF_TX_FAIL_SIG_VAL)
                    || is_signal_event(final(ctx).sent().last().1, RF_TX_DONE_SIG_VAL))),
            ({
                ||| final(self).air() == old(self).air()
                ||| old(self).saved() matches Some(b) && final(self).air() == old(self).air().push(b)
                ||| old(self).pending() matches Some(req) && final(self).pending() is None && exists|t: RfStack<T, N, M, P>, f: Frame|
                    #![trigger stack_down_ok(t, final(self).layers(), req.data@, f)]
                    {
                        &&& t.network == old(self).layers().network
                        &&& t.mac == old(self).layers().mac
                        &&& stack_down_ok(t, final(self).layers(), req.data@, f)
                        &&& final(self).air() == old(self).air().push(f@)
                        &&& final(self).saved() == Some(f@)
                    }
            }),
            exists|a: TransportAction, t2: T| #![trigger old(self).layers().transport.timeout_spec(a, t2)]
                {
                    &&& old(self).layers().transport.timeout_spec(a, t2)
                    &&& a == TransportAction::Nothing ==> final(self).layers().transport == t2 && final(self).ao_state()
                        == old(self).ao_state() && final(self).air() == old(self).air() && final(self).saved() == old(self).saved()
                        && final(self).pending() == old(self).pending() && final(ctx).sent() == old(ctx).sent()
                    &&& a == TransportAction::ShouldRetransmit ==> final(self).layers().transport == t2 && final(self).ao_state()
                        == old(self).ao_state() && final(self).saved() == old(self).saved() && final(self).pending()
                        == old(self).pending() && final(ctx).sent() == old(ctx).sent() && (final(self).air() == old(self).air()
                        || (old(self).saved() matches Some(b) && final(self).air() == old(self).air().push(b)))
                    &&& (a == TransportAction::GiveUp || a == TransportAction::TxComplete) ==> final(ctx).sent()
                        == old(ctx).sent().push((old(self).app(), final(ctx).sent().last().1)) && is_signal_event(
                        final(ctx).sent().last().1,
                        if a == TransportAction::GiveUp {
                            RF_TX_FAIL_SIG_VAL
                        } else {
                            RF_TX_DONE_SIG_VAL
                        },
                    ) && (old(self).pending() is None ==> final(self).layers().transport == t2 && final(self).ao_state()
                        == RfAoState::Idle && final(self).saved() is None && final(self).air() == old(self).air())
                },
    {
        let action = self.stack.transport.on_timeout();
        let ghost t2 = self.stack.transport;
        proof {
            assert(old(self).layers().transport.timeout_spec(action, t2));
        }
        match action {
            TransportAction::ShouldRetransmit => {
                match &self.retransmit_frame {
                    Some(bytes) => {
                        let _ = self.stack.phy.transmit(bytes.as_slice());
                    },
                    None => {},
                }
                self.arm_timer(RETRANSMIT_TIMEOUT_TICKS);
            },
            TransportAction::GiveUp => {
                self.retransmit_frame = None;
                self.state = RfAoState::Idle;
                ctx.post(self.app_ao, Event::empty_dyn(rf_signal(RF_TX_FAIL_SIG_VAL)));
                let ghost mid = *self;
                self.drain_pending();
                proof { self.lemma_drained(mid, *old(self)); }
            },
            TransportAction::TxComplete => {
                self.retransmit_frame = None;
                self.state = RfAoState::Idle;
                ctx.post(self.app_ao, Event::empty_dyn(rf_signal(RF_TX_DONE_SIG_VAL)));
                let ghost mid = *self;
                self.drain_pending();
                proof { self.lemma_drained(mid, *old(self)); }
            },
            TransportAction::Nothing => {},
        }
    }

    /// Starting to send from `mid` counts as starting from `self` when the
    /// two have the same layers, radio logs and transmit configuration.
    proof fn lemma_tx_started_from(self, mid: Self, after: Self, data: Seq<u8>, reliable: bool, idle: RfAoState)
        requires
            mid.layers().transport == self.layers().transport,
            mid.layers().network == self.layers().network,
            mid.layers().mac == self.layers().mac,
            phy_quiet(self.layers().phy, mid.layers().phy),
            mid.txc() == self.txc(),
            mid.tx_started(after, data, reliable, idle),
        ensures
            self.tx_started(after, data, reliable, idle),
    {
        if data.len() <= MAX_FRAME - FRAME_HEADROOM {
            if exists|e: CommsError| #![trigger stack_down_err(mid.layers(), after.layers(), data, e)]
                {
                    &&& stack_down_err(mid.layers(), after.layers(), data, e)
                    &&& phy_quiet(mid.layers().phy, after.layers().phy)
                    &&& after.ao_state() == idle
                } {
                let e = choose|e: CommsError| #![trigger stack_down_err(mid.layers(), after.layers(), data, e)]
                {
                    &&& stack_down_err(mid.layers(), after.layers(), data, e)
                    &&& phy_quiet(mid.layers().phy, after.layers().phy)
                    &&& after.ao_state() == idle
                };
                assert(stack_down_err(self.layers(), after.layers(), data, e));
            } else {
                let (f, ok) = choose|f: Frame, ok: bool|
                    #![trigger stack_down_ok(mid.layers(), after.layers(), data, f), phy_sent(mid.layers().phy, after.layers().phy, mid.txc(), f@, ok)]
                    {
                        &&& stack_down_ok(mid.layers(), after.layers(), data, f)
                        &&& phy_sent(mid.layers().phy, after.layers().phy, mid.txc(), f@, ok)
                        &&& ok ==> after.saved() == Some(f@) && after.ao_state() == (if reliable {
                            RfAoState::WaitingAck
                        } else {
                            RfAoState::Transmitting
                        })
                        &&& !ok ==> after.ao_state() == idle
                    };
                assert(stack_down_ok(self.layers(), after.layers(), data, f));
                assert(phy_sent(self.layers().phy, after.layers().phy, self.txc(), f@, ok));
            }
        }
    }

    /// What draining the held-back request from `mid` (whose network, MAC,
    /// radio log and held-back request are those of `start`) did, in terms
    /// of `start`.
    proof fn lemma_drained(self, mid: Self, start: Self)
        requires
            mid.layers().network == start.layers().network,
            mid.layers().mac == start.layers().mac,
            mid.air() == start.air(),
            mid.pending() == start.pending(),
            !busy(mid.ao_state()),
            mid.pending() is None ==> self.air() == mid.air(),
            mid.pending() is Some ==> self.pending() is None && ({
                let req = mid.pending()->Some_0;
                ||| self.ao_state() == mid.ao_state() && self.air() == mid.air()
                ||| mid.sent_request(self, req.data@, req.reliable)
            }),
        ensures
            ({
                ||| self.air() == start.air()
                ||| start.pending() matches Some(req) && self.pending() is None && exists|t: RfStack<T, N, M, P>, f: Frame|
                    #![trigger stack_down_ok(t, self.layers(), req.data@, f)]
                    {
                        &&& t.network == start.layers().network
                        &&& t.mac == start.layers().mac
                        &&& stack_down_ok(t, self.layers(), req.data@, f)
                        &&& self.air() == start.air().push(f@)
                        &&& self.saved() == Some(f@)
                    }
            }),
    {
        if mid.pending() is Some && self.air() != mid.air() {
            let req = mid.pending()->Some_0;
            let f = choose|f: Frame| #[trigger] stack_down_ok(mid.stack, self.stack, req.data@, f) && {
                &&& self.air() == mid.air().push(f@)
                &&& self.saved() == Some(f@)
                &&& self.ao_state() == (if req.reliable { RfAoState::WaitingAck } else { RfAoState::Transmitting })
            };
            assert(stack_down_ok(mid.stack, self.layers(), req.data@, f));
        }
    }

    /// A frame was received: read it from the radio and decode it up the
    /// stack; a decoded frame ends a reliable wait (reported done) and its
    /// payload (when at most [`RX_FRAME_MAX`] bytes) goes to the
    /// application. The receiver then returns to idle.
    fn handle_rx_done(&mut self, ctx: &mut ActiveContext, meta: RxMetadata)
        ensures
            final(self).layers().phy.rx_reads().len() == old(self).layers().phy.rx_reads().len() + 1,
            final(self).layers().phy.rx_reads().drop_last() == old(self).layers().phy.rx_reads(),
            !final(self).layers().phy.rx_reads().last() ==> final(ctx).sent() == old(ctx).sent() && final(self).ao_state()
                == old(self).ao_state(),
            final(self).layers().phy.rx_reads().last() ==> exists|raw: Frame|
                #![trigger old(self).rx_handled(*final(self), old(ctx).sent(), final(ctx).sent(), raw, meta)]
                old(self).rx_handled(*final(self), old(ctx).sent(), final(ctx).sent(), raw, meta),
            final(self).wf(),
            final(self).app() == old(self).app(),
            final(ctx).owner() == old(ctx).owner(),
            old(ctx).sent().is_prefix_of(final(ctx).sent()),
            final(ctx).sent().len() <= old(ctx).sent().len() + 2,
            forall|k: int| old(ctx).sent().len() <= k < final(ctx).sent().len() ==> (#[trigger] final(ctx).sent()[k]).0
                == old(self).app(),
            forall|k: int| old(ctx).sent().len() <= k < final(ctx).sent().len() ==> is_signal_event(
                (#[trigger] final(ctx).sent()[k]).1,
                RF_TX_DONE_SIG_VAL,
            ) || delivers_decoded(old(self).layers(), final(self).layers(), final(ctx).sent()[k].1),
    {
        self.rx_frame = Frame::new();
        let read = self.stack.phy.read_rx(self.rx_frame.raw_buf_for_dma(), &meta);
        proof {
            self.rx_frame.lemma_view();
            self.rx_frame.lemma_wf_intro();
        }
        if read.is_err() {
            assert(old(ctx).sent().is_prefix_of(ctx.sent()));
            return;
        }
        self.rx_frame.set_received_len(meta.pkt_len as usize);
        let ghost mid = *self;
        self.deliver_rx(ctx, meta);
        proof {
            assert(mid.layers().mac == old(self).layers().mac && mid.layers().network == old(self).layers().network
                && mid.layers().transport == old(self).layers().transport);
            let raw = mid.rx_buf();
            let (raw_after, res) = choose|raw_after: Frame, res: Result<Option<Frame>, CommsError>|
                #![trigger stack_up(mid.layers(), self.layers(), raw, raw_after, res)]
                {
                    let decoded = res matches Ok(Some(_));
                    let done = decoded && mid.ao_state() == RfAoState::WaitingAck;
                    let deliver = res matches Ok(Some(out)) && out@.len() <= RX_FRAME_MAX;
                    &&& stack_up(mid.layers(), self.layers(), raw, raw_after, res)
                    &&& ctx.sent().len() == old(ctx).sent().len() + (if done { 1int } else { 0int }) + (if deliver { 1int } else { 0int })
                    &&& ctx.sent().subrange(0, old(ctx).sent().len() as int) == old(ctx).sent()
                    &&& done ==> ctx.sent()[old(ctx).sent().len() as int].0 == mid.app() && is_signal_event(
                        ctx.sent()[old(ctx).sent().len() as int].1,
                        RF_TX_DONE_SIG_VAL,
                    )
                    &&& done ==> self.saved() is None
                    &&& deliver ==> ctx.sent().last().0 == mid.app() && rx_frame_event(ctx.sent().last().1, res->Ok_0->Some_0@, meta)
                    &&& self.ao_state() == (if done || mid.ao_state() == RfAoState::Listening || mid.ao_state()
                        == RfAoState::ProcessingRx {
                        RfAoState::Idle
                    } else {
                        mid.ao_state()
                    })
                };
            assert(stack_up(old(self).layers(), self.layers(), raw, raw_after, res));
            assert(old(self).rx_handled(*self, old(ctx).sent(), ctx.sent(), raw, meta));
            assert forall|k: int| old(ctx).sent().len() <= k < ctx.sent().len() implies is_signal_event(
                (#[trigger] ctx.sent()[k]).1,
                RF_TX_DONE_SIG_VAL,
            ) || delivers_decoded(old(self).layers(), self.layers(), ctx.sent()[k].1) by {
                if delivers_decoded(mid.layers(), self.layers(), ctx.sent()[k].1) {
                    let e = ctx.sent()[k].1;
                    let (raw, raw_after, out) = choose|raw: Frame, raw_after: Frame, out: Frame|
                        #![trigger stack_up(mid.layers(), self.layers(), raw, raw_after, Ok::<Option<Frame>, CommsError>(Some(out)))]
                        stack_up(mid.layers(), self.layers(), raw, raw_after, Ok::<Option<Frame>, CommsError>(Some(out)))
                            && (*e.payload)->RxFrame_0.data@ == out@;
                    assert(stack_up(old(self).layers(), self.layers(), raw, raw_after, Ok::<Option<Frame>, CommsError>(Some(out))));
                }
            }
        }
    }

    /// Decodes the frame in the receive buffer up the stack and tells the
    /// application what came of it (see [`RfStackAO::rx_handled`]).
    fn deliver_rx(&mut self, ctx: &mut ActiveContext, meta: RxMetadata)
        requires
            old(self).rx_buf().wf(),
        ensures
            final(self).wf(),
            final(self).app() == old(self).app(),
            final(ctx).owner() == old(ctx).owner(),
            final(self).layers().phy.rx_reads() == old(self).layers().phy.rx_reads(),
            old(self).rx_handled(*final(self), old(ctx).sent(), final(ctx).sent(), old(self).rx_buf(), meta),
            old(ctx).sent().is_prefix_of(final(ctx).sent()),
            final(ctx).sent().len() <= old(ctx).sent().len() + 2,
            forall|k: int| old(ctx).sent().len() <= k < final(ctx).sent().len() ==> (#[trigger] final(ctx).sent()[k]).0
                == old(self).app(),
            forall|k: int| old(ctx).sent().len() <= k < final(ctx).sent().len() ==> is_signal_event(
                (#[trigger] final(ctx).sent()[k]).1,
                RF_TX_DONE_SIG_VAL,
            ) || delivers_decoded(old(self).layers(), final(self).layers(), final(ctx).sent()[k].1),
    {
        let ghost s_mid = self.stack;
        let ghost raw0 = self.rx_frame;
        let received = self.stack.receive_raw(&mut self.rx_frame);
        let ghost s_after = self.stack;
        let ghost raw1 = self.rx_frame;
        match received {
            Ok(Some(app_frame)) => {
                if self.state == RfAoState::WaitingAck {
                    self.retransmit_frame = None;
                    self.disarm_timer();
                    ctx.post(self.app_ao, Event::empty_dyn(rf_signal(RF_TX_DONE_SIG_VAL)));
                    self.state = RfAoState::Idle;
                }
                let data = app_frame.payload();
                if data.len() <= RX_FRAME_MAX {
                    let pld = RfRxFramePayload {
                        data: copy_bytes(data),
                        port: RX_FRAME_PORT,
                        rssi: meta.rssi_dbm,
                        snr: meta.snr_db_x10,
                    };
                    let ev = Event::with_payload(rf_signal(RF_RX_FRAME_SIG_VAL), Payload::RxFrame(pld));
                    proof {
                        assert(stack_up(s_mid, s_after, raw0, raw1, Ok::<Option<Frame>, CommsError>(Some(app_frame))));
                        assert(stack_up(old(self).stack, s_after, raw0, raw1, Ok::<Option<Frame>, CommsError>(Some(app_frame))));
                        assert(delivers_decoded(old(self).stack, s_after, ev));
                    }
                    ctx.post(self.app_ao, ev);
                }
            },
            Ok(None) => {},
            Err(_) => {},
        }
        if self.state == RfAoState::Listening || self.state == RfAoState::ProcessingRx {
            self.state = RfAoState::Idle;
        }
        assert(old(ctx).sent().is_prefix_of(ctx.sent()));
        proof {
            assert(stack_up(old(self).layers(), self.layers(), old(self).rx_buf(), raw1, received));
            assert(ctx.sent().subrange(0, old(ctx).sent().len() as int) =~= old(ctx).sent());
            assert(old(self).rx_handled(*self, old(ctx).sent(), ctx.sent(), old(self).rx_buf(), meta));
        }
    }

    /// Opens the receiver when idle; does nothing while busy or listening.
    fn handle_rx_start(&mut self)
        ensures
            old(self).ao_state() == RfAoState::Idle ==> final(self).ao_state() == RfAoState::Listening,
            old(self).ao_state() != RfAoState::Idle ==> final(self).ao_state() == old(self).ao_state(),
            final(self).pending() == old(self).pending(),
            final(self).app() == old(self).app(),
            final(self).wf() == old(self).wf(),
    {
        if self.state == RfAoState::Idle {
            let _ = self.stack.phy.configure_rx(&self.rx_cfg);
            let _ = self.stack.phy.set_mode(RadioMode::Rx { timeout_ms: None });
            self.state = RfAoState::Listening;
        }
    }

    /// Handles what the radio has to report (at most [`MAX_PUMP_EVENTS`]
    /// events): completions, receptions, receive timeouts and CRC errors.
    pub fn pump(&mut self, ctx: &mut ActiveContext)
        ensures
            final(self).app() == old(self).app(),
            final(ctx).owner() == old(ctx).owner(),
    {
        let mut k: usize = 0;
        while k < MAX_PUMP_EVENTS
            invariant
                self.app() == old(self).app(),
                ctx.owner() == old(ctx).owner(),
            decreases MAX_PUMP_EVENTS - k,
        {
            match self.stack.phy.poll_irq() {
                Ok(Some(PhyEvent::TxDone)) => self.handle_tx_done(ctx),
                Ok(Some(PhyEvent::RxDone(meta))) => self.handle_rx_done(ctx, meta),
                Ok(Some(PhyEvent::RxTimeout)) => {
                    self.state = RfAoState::Idle;
                },
                Ok(Some(PhyEvent::CrcError)) => {
                    self.state = RfAoState::Idle;
                },
                Ok(None) => {
                    break;
                },
                Err(_) => {
                    break;
                },
            }
            k = k + 1;
        }
    }
}

/// An owned copy of a transmit request.
fn copy_request(p: &RfTxReqPayload) -> (q: RfTxReqPayload)
    ensures
        q.data@ == p.data@,
        q.fport == p.fport,
        q.reliable == p.reliable,
{
    RfTxReqPayload::with_reliability(copy_bytes(p.data.as_slice()), p.fport, p.reliable)
}

impl<T: Layer, N: Layer, M: Layer, P: RfPhy> ActiveBehavior for RfStackAO<T, N, M, P> {
    /// Brings the radio up and to standby (keeping the first error it
    /// reports, see [`RfStackAO::start_error`]), creates the retransmit timer
    /// aimed at this active object and goes idle.
    fn on_start(&mut self, ctx: &mut ActiveContext)
        ensures
            old(self).start_spec(*old(ctx), *final(self), *final(ctx)),
    {
        self.start_error = match self.stack.phy.init() {
            Ok(()) => match self.stack.phy.set_mode(RadioMode::Standby) {
                Ok(()) => None,
                Err(e) => Some(e),
            },
            Err(e) => Some(e),
        };
        self.retransmit_timer = Some(TimeEvent::new(ctx.id(), TimeEventConfig::new(rf_signal(RF_TRANSPORT_TIMEOUT_SIG_VAL))));
        self.state = RfAoState::Idle;
    }

    /// What starting does, relating the object and its context before and after.
    open spec fn start_spec(self, ctx: ActiveContext, after: Self, ctx_after: ActiveContext) -> bool {
        &&& after.ao_state() == RfAoState::Idle
        &&& after.timer() matches Some(t) && t.state() == (TimeState {
            remaining: 0,
            armed: false,
            disarmed_flag: false,
            interval: None,
        }) && t.target_of() == ctx.owner() && t.signal_of()@ == RF_TRANSPORT_TIMEOUT_SIG_VAL
            && t.rate_of() == 0 && t.meta_of().is_none()
        &&& after.pending() == self.pending()
        &&& after.saved() == self.saved()
        &&& after.app() == self.app()
        &&& after.wf() == self.wf()
        &&& after.layers().transport == self.layers().transport
        &&& after.layers().network == self.layers().network
        &&& after.layers().mac == self.layers().mac
        &&& ctx_after == ctx
    }

    /// Dispatches by signal: transmit requests, receiver start, PHY
    /// completions and receptions, receive timeouts and CRC errors, and the
    /// acknowledgement timer.
    fn on_event(&mut self, ctx: &mut ActiveContext, event: DynEvent)
        ensures
            old(self).event_spec(*old(ctx), event, *final(self), *final(ctx)),
    {
        let sig = event.signal().raw();
        if sig == RF_TX_REQ_SIG_VAL {
            match &*event.payload {
                Payload::TxReq(req) => {
                    let copy = copy_request(req);
                    self.handle_tx_req(copy);
                },
                _ => {},
            }
        } else if sig == RF_RX_START_SIG_VAL {
            self.handle_rx_start();
        } else if sig == RF_PHY_RX_DONE_SIG_VAL {
            match &*event.payload {
                Payload::PhyIrq(p) => {
                    self.handle_rx_done(ctx, p.meta);
                },
                _ => {},
            }
        } else if sig == RF_PHY_TX_DONE_SIG_VAL {
            self.handle_tx_done(ctx);
        } else if sig == RF_PHY_RX_TIMEOUT_SIG_VAL || sig == RF_PHY_CRC_ERROR_SIG_VAL {
            self.state = RfAoState::Idle;
        } else if sig == RF_TRANSPORT_TIMEOUT_SIG_VAL {
            self.handle_transport_timeout(ctx);
        }
    }

    /// What handling `event` does, relating the object and its context before and after.
    open spec fn event_spec(self, ctx: ActiveContext, event: DynEvent, after: Self, ctx_after: ActiveContext) -> bool {
        &&& after.app() == self.app()
        &&& ctx_after.owner() == ctx.owner()
        &&& event.header.signal@ == RF_RX_START_SIG_VAL ==> after.ao_state() == (if self.ao_state()
            == RfAoState::Idle {
            RfAoState::Listening
        } else {
            self.ao_state()
        }) && ctx_after.sent() == ctx.sent()
        &&& event.header.signal@ == RF_PHY_RX_TIMEOUT_SIG_VAL || event.header.signal@ == RF_PHY_CRC_ERROR_SIG_VAL
            ==> after.ao_state() == RfAoState::Idle && ctx_after.sent() == ctx.sent()
        &&& event.header.signal@ == RF_TX_REQ_SIG_VAL ==> ctx_after.sent() == ctx.sent() && (*event.payload matches Payload::TxReq(req) ==> {
            &&& busy(self.ao_state()) ==> after.ao_state() == self.ao_state()
                && after.air() == self.air()
            &&& busy(self.ao_state()) && self.pending() is Some ==> after.pending() == self.pending()
            &&& busy(self.ao_state()) && self.pending() is None ==> (after.pending() matches Some(p)
                && p.data@ == req.data@ && p.fport == req.fport && p.reliable == req.reliable)
            &&& !busy(self.ao_state()) ==> after.pending() == self.pending() && ({
                ||| after.ao_state() == self.ao_state() && after.air() == self.air()
                ||| self.sent_request(after, req.data@, req.reliable)
            })
            &&& !busy(self.ao_state()) ==> self.tx_started(after, req.data@, req.reliable, self.ao_state())
        })
    }
}

} // verus!
