//! LoRaWAN class A radio: an unreliable transport over the LoRaWAN MAC on
//! a PHY, behind the technology-neutral [`Rf`] interface.

use vstd::prelude::*;
use crate::comms::buf::{Frame, FRAME_HEADROOM, MAX_FRAME};
use crate::comms::error::CommsError;
use crate::comms::events::PhyEvent;
use crate::comms::mac::lorawan::LoRaWanMac;
use crate::comms::net::NoopNetwork;
use crate::comms::phy::{PhyCtl, RadioMode, RfPhy, RfRxConfig, RfTxConfig};
use crate::comms::session::LoRaSession;
use crate::comms::mac::lorawan::{frm_crypt, mic_of, uplink_header, MacView, MIC_LEN};
use crate::comms::stack::{fresh_frame, phy_sent, stack_down_err, stack_down_ok, stack_up, Layer, RfStack};
use crate::comms::transport::{datagram_header, UnreliableTransport, TRANSPORT_HEADER_LEN};

verus! {

/// Receive window of [`Rf::receive`], ms.
pub const LORA_RX_TIMEOUT_MS: u32 = 1000;

/// FPort of [`Rf::send`].
pub const DEFAULT_FPORT: u8 = 1;

/// The receive configuration of a receive window under transmit
/// configuration `txc`: the transmit frequency, a bounded window.
pub open spec fn lora_rx_cfg(txc: RfTxConfig) -> RfRxConfig {
    RfRxConfig { frequency_hz: txc.frequency_hz, timeout_ms: Some(LORA_RX_TIMEOUT_MS) }
}

/// The mode a receive window switches the radio to.
pub open spec fn lora_rx_mode() -> RadioMode {
    RadioMode::Rx { timeout_ms: Some(LORA_RX_TIMEOUT_MS) }
}

/// The control requests a receive window hands to the radio, from `c0` to
/// `c1`: the receive configuration `cfg`, then, if the radio took it, the
/// switch to receiving for the window.
pub open spec fn rx_window_tried(c0: Seq<PhyCtl>, c1: Seq<PhyCtl>, cfg: RfRxConfig) -> bool {
    ||| c1 == c0.push(PhyCtl::RxConfig(cfg, false))
    ||| c1 == c0.push(PhyCtl::RxConfig(cfg, true)).push(PhyCtl::Mode(lora_rx_mode(), false))
    ||| rx_window_opened(c0, c1, cfg)
}

/// As [`rx_window_tried`], and the radio took both requests.
pub open spec fn rx_window_opened(c0: Seq<PhyCtl>, c1: Seq<PhyCtl>, cfg: RfRxConfig) -> bool {
    c1 == c0.push(PhyCtl::RxConfig(cfg, true)).push(PhyCtl::Mode(lora_rx_mode(), true))
}

/// Decoding up the stack does not look at the radio.
proof fn lemma_stack_up_radio_free<P: RfPhy>(
    s: RfStack<UnreliableTransport, NoopNetwork, LoRaWanMac, P>,
    t: RfStack<UnreliableTransport, NoopNetwork, LoRaWanMac, P>,
    s2: RfStack<UnreliableTransport, NoopNetwork, LoRaWanMac, P>,
    t2: RfStack<UnreliableTransport, NoopNetwork, LoRaWanMac, P>,
    raw: Frame,
    raw_after: Frame,
    r: Result<Option<Frame>, CommsError>,
)
    requires
        s.mac == t.mac,
        s.network == t.network,
        s.transport == t.transport,
        s2.mac == t2.mac,
        s2.network == t2.network,
        s2.transport == t2.transport,
        stack_up(s, s2, raw, raw_after, r),
    ensures
        stack_up(t, t2, raw, raw_after, r),
{
}

/// Longest payload an uplink carries: the frame below the headroom, less
/// the message integrity code.
pub const MAX_UPLINK_PAYLOAD: usize = MAX_FRAME - FRAME_HEADROOM - MIC_LEN;

/// Technology-neutral radio interface.
pub trait Rf {
    /// Sends `payload` (returns once handed to the radio).
    fn send(&mut self, payload: &[u8]) -> (r: Result<(), CommsError>);

    /// Receives a frame into `buf`, returning the number of bytes written,
    /// or [`CommsError::NothingReceived`].
    fn receive(&mut self, buf: &mut [u8]) -> (r: Result<usize, CommsError>)
        ensures
            final(buf)@.len() == old(buf)@.len(),
            r matches Ok(n) ==> n <= old(buf)@.len(),
    ;

    /// Name of the radio.
    fn chip_name(&self) -> (s: &'static str);
}

/// LoRaWAN class A radio over PHY `P`.
pub struct LoRaRf<P: RfPhy> {
    stack: RfStack<UnreliableTransport, NoopNetwork, LoRaWanMac, P>,
    session: LoRaSession,
    tx_config: RfTxConfig,
    name: &'static str,
}

impl<P: RfPhy> LoRaRf<P> {
    /// The session state.
    pub closed spec fn sess(&self) -> LoRaSession {
        self.session
    }

    /// The frames handed to the air so far, oldest first.
    pub closed spec fn air(&self) -> Seq<Seq<u8>> {
        self.stack.phy.tx_log()
    }

    /// The radio.
    pub closed spec fn radio_phy(&self) -> P {
        self.stack.phy
    }

    /// The transmit configuration.
    pub closed spec fn txc(&self) -> RfTxConfig {
        self.tx_config
    }

    /// The radio chip's name, as the PHY reported it.
    pub closed spec fn chip(&self) -> &'static str {
        self.name
    }

    /// The layers and radio the frames go through.
    pub closed spec fn layers(&self) -> RfStack<UnreliableTransport, NoopNetwork, LoRaWanMac, P> {
        self.stack
    }

    /// Sequence number of the transport's next datagram.
    pub closed spec fn tx_seq(&self) -> u8 {
        self.stack.transport@
    }

    /// A radio over `phy` for `session`, transmitting with `tx_config`.
    pub fn new(phy: P, session: LoRaSession, tx_config: RfTxConfig) -> (r: LoRaRf<P>)
        ensures
            r.sess() == session,
            r.txc() == tx_config,
            r.air() == phy.tx_log(),
    {
        let name = phy.chip_name();
        let mac = LoRaWanMac::new(session, DEFAULT_FPORT);
        let stack = RfStack::new(UnreliableTransport::new(), NoopNetwork, mac, phy);
        LoRaRf { stack, session, tx_config, name }
    }

    /// The session state.
    pub fn session(&self) -> (s: &LoRaSession)
        ensures
            *s == self.sess(),
    {
        &self.session
    }

    /// The transmit configuration.
    pub fn tx_config(&self) -> (c: &RfTxConfig)
        ensures
            *c == self.txc(),
    {
        &self.tx_config
    }

    /// Name of the radio chip.
    pub fn chip_name(&self) -> (s: &'static str)
        ensures
            s == self.chip(),
    {
        self.name
    }

    /// Brings the radio up.
    pub fn init(&mut self) -> (r: Result<(), CommsError>)
        ensures
            final(self).sess() == old(self).sess(),
            final(self).air() == old(self).air(),
            final(self).tx_seq() == old(self).tx_seq(),
            final(self).txc() == old(self).txc(),
    {
        self.stack.phy.init()
    }

    /// Builds an uplink on `fport` from the current session and transmits
    /// it; the session's uplink counter advances once the radio has it.
    /// Payloads longer than [`MAX_UPLINK_PAYLOAD`] fail with
    /// [`CommsError::BufferTooSmall`]; a failure hands nothing to the air
    /// and leaves the session as it was.
    pub fn send_with_fport(&mut self, payload: &[u8], fport: u8) -> (r: Result<(), CommsError>)
        ensures
            payload@.len() > MAX_UPLINK_PAYLOAD ==> r == Err::<(), CommsError>(CommsError::BufferTooSmall),
            r is Ok ==> {
                &&& final(self).sess() == (LoRaSession {
                    fcnt_up: old(self).sess().fcnt_up.wrapping_add(1),
                    ..old(self).sess()
                })
                &&& final(self).air() == old(self).air().push(
                    lora_uplink(old(self).sess(), fport, old(self).tx_seq(), payload@),
                )
                &&& final(self).tx_seq() == old(self).tx_seq().wrapping_add(1)
            },
            r is Err ==> final(self).sess() == old(self).sess() && final(self).air() == old(self).air(),
            payload@.len() <= MAX_UPLINK_PAYLOAD ==> phy_sent(
                old(self).radio_phy(),
                final(self).radio_phy(),
                old(self).txc(),
                lora_uplink(old(self).sess(), fport, old(self).tx_seq(), payload@),
                r is Ok,
            ),
            final(self).txc() == old(self).txc(),
    {
        self.stack.mac = LoRaWanMac::new(self.session, fport);
        let ghost before = self.stack;
        let r = self.stack.transmit(payload, &self.tx_config);
        proof {
            if payload@.len() <= MAX_FRAME - FRAME_HEADROOM {
                if payload@.len() <= MAX_UPLINK_PAYLOAD {
                    if let Err(e) = r {
                        lemma_lora_encodes(before, self.stack, payload@, e);
                    }
                }
                if exists|f: Frame| #[trigger] stack_down_ok(before, self.stack, payload@, f) {
                    let f = choose|f: Frame| #[trigger] stack_down_ok(before, self.stack, payload@, f)
                        && self.stack.phy.tx_log() == (if r is Ok {
                            before.phy.tx_log().push(f@)
                        } else {
                            before.phy.tx_log()
                        }) && phy_sent(before.phy, self.stack.phy, self.tx_config, f@, r is Ok);
                    lemma_lora_uplink_frame(before, self.stack, self.session, fport, payload@, f);
                }
            }
        }
        match r {
            Ok(()) => {},
            Err(e) => {
                return Err(e);
            },
        }
        self.session.fcnt_up = self.stack.mac.fcnt_up();
        Ok(())
    }
}

/// The on-air bytes of an uplink carrying `payload` on `fport` in
/// `session`, numbered `seq` by the transport: the MAC header, the
/// encrypted transport PDU and the MIC.
pub open spec fn lora_uplink(session: LoRaSession, fport: u8, seq: u8, payload: Seq<u8>) -> Seq<u8> {
    let pdu = datagram_header(seq, payload.len()) + payload;
    let enc = frm_crypt(pdu, session.app_skey@, session.dev_addr@, session.fcnt_up, 0);
    let hdr = uplink_header(session.dev_addr@, session.fcnt_up, fport);
    hdr + enc + mic_of(hdr + enc, session.nwk_skey@, session.dev_addr@, session.fcnt_up, 0)
}

/// Number of `true` entries of `oks`.
pub open spec fn successes(oks: Seq<bool>) -> nat
    decreases oks.len(),
{
    if oks.len() == 0 {
        0
    } else {
        successes(oks.drop_last()) + if oks.last() {
            1nat
        } else {
            0nat
        }
    }
}

/// `h` holds the session before and after each send, `oks` which of them
/// succeeded, as [`LoRaRf::send_with_fport`] leaves them.
pub open spec fn send_history(h: Seq<LoRaSession>, oks: Seq<bool>) -> bool {
    &&& h.len() == oks.len() + 1
    &&& forall|k: int| 0 <= k < oks.len() ==> (#[trigger] h[k + 1]) == (if oks[k] {
        LoRaSession { fcnt_up: h[k].fcnt_up.wrapping_add(1), ..h[k] }
    } else {
        h[k]
    })
}

/// Law: over any run of sends the session's keys and address stay, and
/// (while it does not wrap) the uplink counter grows by the number of
/// successful sends.
pub proof fn lemma_send_history(h: Seq<LoRaSession>, oks: Seq<bool>)
    requires
        send_history(h, oks),
    ensures
        h.last() == (LoRaSession { fcnt_up: h.last().fcnt_up, ..h[0] }),
        h[0].fcnt_up + successes(oks) <= u32::MAX ==> h.last().fcnt_up == h[0].fcnt_up + successes(oks),
    decreases oks.len(),
{
    if oks.len() > 0 {
        let n = oks.len() - 1;
        let h2 = h.drop_last();
        let o2 = oks.drop_last();
        assert forall|k: int| 0 <= k < o2.len() implies (#[trigger] h2[k + 1]) == (if o2[k] {
            LoRaSession { fcnt_up: h2[k].fcnt_up.wrapping_add(1), ..h2[k] }
        } else {
            h2[k]
        }) by {
            assert(h[k + 1] == h2[k + 1]);
        }
        lemma_send_history(h2, o2);
        assert(h2.last() == h[n]);
        assert(oks.last() == oks[n]);
        assert(h.last() == h[n + 1]);
    }
}

/// The LoRa stack refuses no payload of at most [`MAX_UPLINK_PAYLOAD`]
/// bytes: the transport and the MAC find their headroom and the MIC fits.
proof fn lemma_lora_encodes<P: RfPhy>(
    s: RfStack<UnreliableTransport, NoopNetwork, LoRaWanMac, P>,
    s2: RfStack<UnreliableTransport, NoopNetwork, LoRaWanMac, P>,
    payload: Seq<u8>,
    e: CommsError,
)
    requires
        payload.len() <= MAX_UPLINK_PAYLOAD,
    ensures
        !stack_down_err(s, s2, payload, e),
{
    if exists|f0: Frame, f1: Frame, f2: Frame, f3: Frame|
        #![trigger s.transport.down_spec(f0, Ok::<(), CommsError>(()), s2.transport, f1), s.mac.down_spec(f2, Err::<(), CommsError>(e), s2.mac, f3)]
        {
            &&& fresh_frame(f0, payload)
            &&& f1.wf() && f2.wf()
            &&& s.transport.down_spec(f0, Ok::<(), CommsError>(()), s2.transport, f1)
            &&& s.network.down_spec(f1, Ok::<(), CommsError>(()), s2.network, f2)
            &&& s.mac.down_spec(f2, Err::<(), CommsError>(e), s2.mac, f3)
        } {
        let (f0, f1, f2, f3) = choose|f0: Frame, f1: Frame, f2: Frame, f3: Frame|
            #![trigger s.transport.down_spec(f0, Ok::<(), CommsError>(()), s2.transport, f1), s.mac.down_spec(f2, Err::<(), CommsError>(e), s2.mac, f3)]
            {
                &&& fresh_frame(f0, payload)
                &&& f1.wf() && f2.wf()
                &&& s.transport.down_spec(f0, Ok::<(), CommsError>(()), s2.transport, f1)
                &&& s.network.down_spec(f1, Ok::<(), CommsError>(()), s2.network, f2)
                &&& s.mac.down_spec(f2, Err::<(), CommsError>(e), s2.mac, f3)
            };
        f0.lemma_wf();
        f1.lemma_wf();
        assert(f1.head() == FRAME_HEADROOM - TRANSPORT_HEADER_LEN);
        assert(f2 == f1);
    }
}

/// A frame that the LoRa stack built from `payload` with a MAC fresh from
/// `session` is the uplink of that payload, and the payload fits.
proof fn lemma_lora_uplink_frame<P: RfPhy>(
    s: RfStack<UnreliableTransport, NoopNetwork, LoRaWanMac, P>,
    s2: RfStack<UnreliableTransport, NoopNetwork, LoRaWanMac, P>,
    session: LoRaSession,
    fport: u8,
    payload: Seq<u8>,
    f: Frame,
)
    requires
        stack_down_ok(s, s2, payload, f),
        s.mac.addr() == session.dev_addr@,
        s.mac.nwk_key() == session.nwk_skey@,
        s.mac.app_key() == session.app_skey@,
        s.mac@ == (MacView { fcnt_up: session.fcnt_up, fcnt_dn: 0, fport }),
    ensures
        f@ == lora_uplink(session, fport, s.transport@, payload),
        payload.len() <= MAX_UPLINK_PAYLOAD,
        s2.transport@ == s.transport@.wrapping_add(1),
        s2.mac@.fcnt_up == session.fcnt_up.wrapping_add(1),
{
    let (f0, f1, f2) = choose|f0: Frame, f1: Frame, f2: Frame|
        {
            &&& fresh_frame(f0, payload)
            &&& f1.wf() && f2.wf() && f.wf()
            &&& s.transport.down_spec(f0, Ok::<(), CommsError>(()), s2.transport, f1)
            &&& s.network.down_spec(f1, Ok::<(), CommsError>(()), s2.network, f2)
            &&& s.mac.down_spec(f2, Ok::<(), CommsError>(()), s2.mac, f)
        };
    f0.lemma_wf();
    f1.lemma_wf();
    f2.lemma_wf();
}

impl<P: RfPhy> Rf for LoRaRf<P> {
    fn chip_name(&self) -> (s: &'static str) {
        self.name
    }

    /// Sends on FPort 1.
    fn send(&mut self, payload: &[u8]) -> (r: Result<(), CommsError>)
        ensures
            payload@.len() > MAX_UPLINK_PAYLOAD ==> r == Err::<(), CommsError>(CommsError::BufferTooSmall),
            r is Ok ==> {
                &&& final(self).sess() == (LoRaSession {
                    fcnt_up: old(self).sess().fcnt_up.wrapping_add(1),
                    ..old(self).sess()
                })
                &&& final(self).air() == old(self).air().push(
                    lora_uplink(old(self).sess(), DEFAULT_FPORT, old(self).tx_seq(), payload@),
                )
                &&& final(self).tx_seq() == old(self).tx_seq().wrapping_add(1)
            },
            r is Err ==> final(self).sess() == old(self).sess() && final(self).air() == old(self).air(),
            payload@.len() <= MAX_UPLINK_PAYLOAD ==> phy_sent(
                old(self).radio_phy(),
                final(self).radio_phy(),
                old(self).txc(),
                lora_uplink(old(self).sess(), DEFAULT_FPORT, old(self).tx_seq(), payload@),
                r is Ok,
            ),
    {
        self.send_with_fport(payload, DEFAULT_FPORT)
    }

    /// Opens a receive window; a frame the radio reports is decoded up the
    /// stack and as much of its payload as fits is copied into `buf`.
    /// Nothing is sent, and the session stays as it was.
    fn receive(&mut self, buf: &mut [u8]) -> (r: Result<usize, CommsError>)
        ensures
            rx_window_tried(old(self).radio_phy().ctl_log(), final(self).radio_phy().ctl_log(), lora_rx_cfg(old(self).txc())),
            r is Ok ==> rx_window_opened(
                old(self).radio_phy().ctl_log(),
                final(self).radio_phy().ctl_log(),
                lora_rx_cfg(old(self).txc()),
            ),
            final(self).air() == old(self).air(),
            final(self).radio_phy().tx_tries() == old(self).radio_phy().tx_tries(),
            final(self).radio_phy().cfg_tries() == old(self).radio_phy().cfg_tries(),
            final(self).sess() == old(self).sess(),
            final(self).txc() == old(self).txc(),
            r matches Ok(n) ==> {
                &&& final(self).radio_phy().rx_reads() == old(self).radio_phy().rx_reads().push(true)
                &&& exists|raw: Frame, raw_after: Frame, out: Frame|
                    #![trigger stack_up(old(self).layers(), final(self).layers(), raw, raw_after, Ok::<Option<Frame>, CommsError>(Some(out)))]
                    {
                        &&& raw.head() == 0
                        &&& raw@.len() <= old(buf)@.len()
                        &&& stack_up(old(self).layers(), final(self).layers(), raw, raw_after, Ok::<Option<Frame>, CommsError>(Some(out)))
                        &&& n == (if out@.len() < old(buf)@.len() { out@.len() } else { old(buf)@.len() })
                        &&& final(buf)@.subrange(0, n as int) == out@.subrange(0, n as int)
                    }
            },
            r is Err ==> final(buf)@ == old(buf)@,
            r matches Ok(n) ==> final(buf)@.subrange(n as int, old(buf)@.len() as int) == old(buf)@.subrange(
                n as int,
                old(buf)@.len() as int,
            ),
    {
        let ghost s0 = self.stack;
        let rx = RfRxConfig { frequency_hz: self.tx_config.frequency_hz, timeout_ms: Some(LORA_RX_TIMEOUT_MS) };
        match self.stack.phy.configure_rx(&rx) {
            Ok(()) => {},
            Err(e) => {
                assert(rx_window_tried(s0.phy.ctl_log(), self.stack.phy.ctl_log(), rx));
                return Err(e);
            },
        }
        match self.stack.phy.set_mode(RadioMode::Rx { timeout_ms: Some(LORA_RX_TIMEOUT_MS) }) {
            Ok(()) => {},
            Err(e) => {
                assert(rx_window_tried(s0.phy.ctl_log(), self.stack.phy.ctl_log(), rx));
                return Err(e);
            },
        }
        assert(rx_window_opened(s0.phy.ctl_log(), self.stack.phy.ctl_log(), rx));
        let event = match self.stack.phy.poll_irq() {
            Ok(ev) => ev,
            Err(e) => {
                return Err(e);
            },
        };
        match event {
            Some(PhyEvent::RxDone(meta)) => {
                let pkt = meta.pkt_len as usize;
                let len = if pkt < buf.len() { pkt } else { buf.len() };
                let mut tmp: Vec<u8> = vec![0u8; len];
                match self.stack.phy.read_rx(tmp.as_mut_slice(), &meta) {
                    Ok(()) => {},
                    Err(e) => {
                        return Err(e);
                    },
                }
                let mut received = Frame::from_received(tmp.as_slice());
                let ghost mid = self.stack;
                let ghost raw0 = received;
                match self.stack.receive_raw(&mut received) {
                    Ok(Some(out)) => {
                        let data = out.payload();
                        let out_len = if data.len() < buf.len() { data.len() } else { buf.len() };
                        let mut k: usize = 0;
                        while k < out_len
                            invariant
                                out_len <= data@.len(),
                                out_len <= buf@.len(),
                                buf@.len() == old(buf)@.len(),
                                k <= out_len,
                                forall|j: int| 0 <= j < k ==> buf@[j] == data@[j],
                                forall|j: int| k <= j < buf@.len() ==> buf@[j] == old(buf)@[j],
                            decreases out_len - k,
                        {
                            buf[k] = data[k];
                            k = k + 1;
                        }
                        assert(buf@.subrange(out_len as int, buf@.len() as int) =~= old(buf)@.subrange(
                            out_len as int,
                            old(buf)@.len() as int,
                        ));
                        assert(buf@.subrange(0, out_len as int) =~= out@.subrange(0, out_len as int));
                        proof {
                            lemma_stack_up_radio_free(mid, s0, self.stack, self.stack, raw0, received,
                                Ok::<Option<Frame>, CommsError>(Some(out)));
                            assert(stack_up(old(self).layers(), self.layers(), raw0, received, Ok::<Option<Frame>, CommsError>(Some(out))));
                        }
                        return Ok(out_len);
                    },
                    Ok(None) => {},
                    Err(e) => {
                        return Err(e);
                    },
                }
            },
            _ => {},
        }
        Err(CommsError::NothingReceived)
    }
}

} // verus!
