//! Transport layers: a reliable one with acknowledgement and retransmission
//! bookkeeping, and an unreliable datagram one.
//!
//! Both put a 5-byte header in front of the payload:
//! `[SEQ, ACK, FLAGS, LEN lo, LEN hi]`.

use vstd::prelude::*;
use crate::comms::buf::Frame;
use crate::comms::error::CommsError;
use crate::comms::stack::Layer;

verus! {

/// Length of the transport header.
pub const TRANSPORT_HEADER_LEN: usize = 5;

/// Flag bits of the transport header's FLAGS byte.
pub struct TransportFlags;

impl TransportFlags {
    /// First fragment of a PDU.
    pub const FIRST_FRAG: u8 = 0x01;
    /// Last fragment of a PDU.
    pub const LAST_FRAG: u8 = 0x02;
    /// The sender asks for an acknowledgement.
    pub const ACK_REQ: u8 = 0x04;
    /// Pure acknowledgement PDU.
    pub const IS_ACK: u8 = 0x08;
    /// Negative acknowledgement PDU.
    pub const IS_NACK: u8 = 0x10;
    /// Session reset.
    pub const RESET: u8 = 0x20;
}

/// State of the reliable transport.
#[derive(Debug, Clone, Copy, PartialEq, Eq, Structural)]
pub enum TransportState {
    /// No transfer in progress.
    Idle,
    /// A PDU was sent and its acknowledgement is awaited.
    WaitingAck,
}

/// What the owner of a transport must do after a transport event.
#[derive(Debug, Clone, Copy, PartialEq, Eq, Structural)]
pub enum TransportAction {
    /// Nothing.
    Nothing,
    /// The peer acknowledged the last PDU: the transfer is complete.
    TxComplete,
    /// Replay the saved (already encoded) frame.
    ShouldRetransmit,
    /// The retransmit budget is spent: report failure.
    GiveUp,
}

/// Abstract state of a [`ReliableTransport`].
#[derive(Debug, Clone, Copy, PartialEq, Eq, Structural)]
pub struct ReliableView {
    /// Sequence number of the next PDU sent.
    pub seq: u8,
    /// Last sequence number accepted from the peer.
    pub acked: u8,
    /// Retransmissions left for the PDU in flight.
    pub retries: u8,
    /// Retransmission budget given to each PDU.
    pub max_retries: u8,
    /// Transfer state.
    pub state: TransportState,
}

/// Effect of a retransmit-timer expiry.
pub open spec fn timeout_step(v: ReliableView) -> (ReliableView, TransportAction) {
    if v.state == TransportState::WaitingAck {
        if v.retries > 0 {
            (ReliableView { retries: (v.retries - 1) as u8, ..v }, TransportAction::ShouldRetransmit)
        } else {
            (ReliableView { state: TransportState::Idle, ..v }, TransportAction::GiveUp)
        }
    } else {
        (v, TransportAction::Nothing)
    }
}

/// Effect of an acknowledgement carrying `ack_seq`: it completes the
/// transfer exactly when it names the last sequence number sent.
pub open spec fn ack_step(v: ReliableView, ack_seq: u8) -> (ReliableView, TransportAction) {
    if ack_seq == v.seq.wrapping_sub(1) {
        (ReliableView { state: TransportState::Idle, ..v }, TransportAction::TxComplete)
    } else {
        (v, TransportAction::Nothing)
    }
}

/// Header the reliable transport puts in front of a payload of `len` bytes.
pub open spec fn reliable_header(v: ReliableView, len: nat) -> Seq<u8> {
    seq![
        v.seq,
        v.acked,
        TransportFlags::FIRST_FRAG | TransportFlags::LAST_FRAG | TransportFlags::ACK_REQ,
        len as u8,
        0u8,
    ]
}

/// Effect of an incoming PDU whose (at least 5-byte) header is `hdr`:
/// the new state and whether the payload goes on to the application.
pub open spec fn receive_step(v: ReliableView, hdr: Seq<u8>) -> (ReliableView, bool) {
    if hdr[2] & TransportFlags::IS_ACK != 0 {
        (ack_step(v, hdr[0]).0, false)
    } else if hdr[0] == v.acked && v.state != TransportState::Idle {
        (v, false)
    } else {
        (ReliableView { acked: hdr[0], ..v }, true)
    }
}

/// Reliable transport: sequence numbers, acknowledgements and a retransmit
/// budget. The encoded frame itself is kept by the owner for replay.
pub struct ReliableTransport {
    seq: u8,
    acked: u8,
    retries: u8,
    max_retries: u8,
    state: TransportState,
}

impl View for ReliableTransport {
    type V = ReliableView;

    closed spec fn view(&self) -> ReliableView {
        ReliableView {
            seq: self.seq,
            acked: self.acked,
            retries: self.retries,
            max_retries: self.max_retries,
            state: self.state,
        }
    }
}

impl ReliableTransport {
    /// A transport granting each PDU `max_retries` retransmissions.
    pub fn new(max_retries: u8) -> (t: ReliableTransport)
        ensures
            t@ == (ReliableView {
                seq: 0,
                acked: 0,
                retries: 0,
                max_retries,
                state: TransportState::Idle,
            }),
    {
        ReliableTransport { seq: 0, acked: 0, retries: 0, max_retries, state: TransportState::Idle }
    }

    /// Current transfer state.
    pub fn state(&self) -> (s: TransportState)
        ensures
            s == self@.state,
    {
        self.state
    }

    /// Sequence number of the next PDU sent.
    pub fn seq(&self) -> (s: u8)
        ensures
            s == self@.seq,
    {
        self.seq
    }

    /// Last sequence number accepted from the peer.
    pub fn acked(&self) -> (s: u8)
        ensures
            s == self@.acked,
    {
        self.acked
    }

    /// Retransmissions left for the PDU in flight.
    pub fn retries(&self) -> (s: u8)
        ensures
            s == self@.retries,
    {
        self.retries
    }

    /// The retransmit timer fired: retransmit while budget is left, else
    /// give up and go idle.
    pub fn on_timeout(&mut self) -> (a: TransportAction)
        ensures
            (final(self)@, a) == timeout_step(old(self)@),
    {
        if self.state == TransportState::WaitingAck {
            if self.retries > 0 {
                self.retries = self.retries - 1;
                TransportAction::ShouldRetransmit
            } else {
                self.state = TransportState::Idle;
                TransportAction::GiveUp
            }
        } else {
            TransportAction::Nothing
        }
    }

    /// A pure acknowledgement for `ack_seq` arrived.
    pub fn on_ack_received(&mut self, ack_seq: u8) -> (a: TransportAction)
        ensures
            (final(self)@, a) == ack_step(old(self)@, ack_seq),
    {
        if ack_seq == self.seq.wrapping_sub(1) {
            self.state = TransportState::Idle;
            TransportAction::TxComplete
        } else {
            TransportAction::Nothing
        }
    }
}

impl Layer for ReliableTransport {
    open spec fn timeout_spec(self, a: TransportAction, after: Self) -> bool {
        (after@, a) == timeout_step(self@)
    }

    open spec fn down_spec(self, frame: Frame, r: Result<(), CommsError>, after: Self, frame_after: Frame) -> bool {
        &&& frame.head() < TRANSPORT_HEADER_LEN ==> r == Err::<(), CommsError>(CommsError::BufferTooSmall)
            && frame_after == frame && after@ == self@
        &&& frame.head() >= TRANSPORT_HEADER_LEN ==> {
            &&& r is Ok
            &&& frame_after@ == reliable_header(self@, frame@.len()) + frame@
            &&& frame_after.head() == frame.head() - TRANSPORT_HEADER_LEN
            &&& after@ == (ReliableView {
                seq: self@.seq.wrapping_add(1),
                retries: self@.max_retries,
                state: TransportState::WaitingAck,
                ..self@
            })
        }
    }

    open spec fn up_spec(self, frame: Frame, r: Result<bool, CommsError>, after: Self, frame_after: Frame) -> bool {
        &&& frame@.len() < TRANSPORT_HEADER_LEN ==> r == Ok::<bool, CommsError>(false)
            && frame_after == frame && after@ == self@
        &&& frame@.len() >= TRANSPORT_HEADER_LEN ==> {
            let hdr = frame@.subrange(0, TRANSPORT_HEADER_LEN as int);
            &&& frame_after@ == frame@.subrange(TRANSPORT_HEADER_LEN as int, frame@.len() as int)
            &&& r == Ok::<bool, CommsError>(receive_step(self@, hdr).1)
            &&& after@ == receive_step(self@, hdr).0
        }
    }

    /// Prepends the header, arms the retransmit budget and advances the
    /// sequence number; fails, changing nothing, without headroom.
    fn down(&mut self, frame: &mut Frame) -> (r: Result<(), CommsError>)
        ensures
            old(frame).head() < TRANSPORT_HEADER_LEN ==> r == Err::<(), CommsError>(
                CommsError::BufferTooSmall,
            ) && *final(frame) == *old(frame) && final(self)@ == old(self)@,
            old(frame).head() >= TRANSPORT_HEADER_LEN ==> {
                &&& r is Ok
                &&& final(frame)@ == reliable_header(old(self)@, old(frame)@.len()) + old(
                    frame,
                )@
                &&& final(frame).head() == old(frame).head() - TRANSPORT_HEADER_LEN
                &&& final(self)@ == (ReliableView {
                    seq: old(self)@.seq.wrapping_add(1),
                    retries: old(self)@.max_retries,
                    state: TransportState::WaitingAck,
                    ..old(self)@
                })
            },
    {
        let payload_len = frame.len();
        let hdr: Vec<u8> = vec![
            self.seq,
            self.acked,
            TransportFlags::FIRST_FRAG | TransportFlags::LAST_FRAG | TransportFlags::ACK_REQ,
            payload_len as u8,
            0u8,
        ];
        assert(hdr@ =~= reliable_header(self@, old(frame)@.len()));
        match frame.prepend_header(hdr.as_slice()) {
            Ok(()) => {},
            Err(e) => {
                return Err(e);
            },
        }
        self.retries = self.max_retries;
        self.state = TransportState::WaitingAck;
        self.seq = self.seq.wrapping_add(1);
        Ok(())
    }

    /// Strips the header. Pure acknowledgements are consumed, duplicates of
    /// the last accepted PDU dropped; anything else is delivered.
    fn up(&mut self, frame: &mut Frame) -> (r: Result<bool, CommsError>)
        ensures
            old(frame)@.len() < TRANSPORT_HEADER_LEN ==> r == Ok::<bool, CommsError>(false)
                && *final(frame) == *old(frame) && final(self)@ == old(self)@,
            old(frame)@.len() >= TRANSPORT_HEADER_LEN ==> {
                let hdr = old(frame)@.subrange(0, TRANSPORT_HEADER_LEN as int);
                &&& final(frame)@ == old(frame)@.subrange(
                    TRANSPORT_HEADER_LEN as int,
                    old(frame)@.len() as int,
                )
                &&& r == Ok::<bool, CommsError>(receive_step(old(self)@, hdr).1)
                &&& final(self)@ == receive_step(old(self)@, hdr).0
            },
    {
        if frame.len() < TRANSPORT_HEADER_LEN {
            return Ok(false);
        }
        let raw = match frame.strip_header(TRANSPORT_HEADER_LEN) {
            Ok(v) => v,
            Err(e) => {
                return Err(e);
            },
        };
        let seq = raw[0];
        let flags = raw[2];
        if flags & TransportFlags::IS_ACK != 0 {
            self.on_ack_received(seq);
            return Ok(false);
        }
        if seq == self.acked && self.state != TransportState::Idle {
            return Ok(false);
        }
        self.acked = seq;
        Ok(true)
    }

    fn on_timeout(&mut self) -> (a: TransportAction)
        ensures
            (final(self)@, a) == timeout_step(old(self)@),
    {
        ReliableTransport::on_timeout(self)
    }
}

/// Header the unreliable transport puts in front of a payload of `len`
/// bytes, numbered `seq`.
pub open spec fn datagram_header(seq: u8, len: nat) -> Seq<u8> {
    seq![
        seq,
        0u8,
        TransportFlags::FIRST_FRAG | TransportFlags::LAST_FRAG,
        (len as u16) as u8,
        ((len as u16) >> 8u16) as u8,
    ]
}

/// Unreliable datagram transport: numbered PDUs, no acknowledgement.
pub struct UnreliableTransport {
    seq: u8,
}

impl View for UnreliableTransport {
    type V = u8;

    /// Sequence number of the next datagram.
    closed spec fn view(&self) -> u8 {
        self.seq
    }
}

impl UnreliableTransport {
    /// A transport numbering from 0.
    pub fn new() -> (t: UnreliableTransport)
        ensures
            t@ == 0,
    {
        UnreliableTransport { seq: 0 }
    }
}

impl Default for UnreliableTransport {
    fn default() -> (t: UnreliableTransport)
        ensures
            t@ == 0,
    {
        UnreliableTransport::new()
    }
}

impl Layer for UnreliableTransport {
    open spec fn timeout_spec(self, a: TransportAction, after: Self) -> bool {
        a == TransportAction::Nothing && after == self
    }

    /// Nothing to retransmit at this layer.
    fn on_timeout(&mut self) -> (a: TransportAction) {
        TransportAction::Nothing
    }

    open spec fn down_spec(self, frame: Frame, r: Result<(), CommsError>, after: Self, frame_after: Frame) -> bool {
        &&& frame.head() < TRANSPORT_HEADER_LEN ==> r == Err::<(), CommsError>(CommsError::BufferTooSmall)
            && frame_after == frame && after@ == self@
        &&& frame.head() >= TRANSPORT_HEADER_LEN ==> {
            &&& r is Ok
            &&& frame_after@ == datagram_header(self@, frame@.len()) + frame@
            &&& frame_after.head() == frame.head() - TRANSPORT_HEADER_LEN
            &&& after@ == self@.wrapping_add(1)
        }
    }

    open spec fn up_spec(self, frame: Frame, r: Result<bool, CommsError>, after: Self, frame_after: Frame) -> bool {
        &&& after@ == self@
        &&& frame@.len() < TRANSPORT_HEADER_LEN ==> r == Ok::<bool, CommsError>(false) && frame_after == frame
        &&& frame@.len() >= TRANSPORT_HEADER_LEN ==> r == Ok::<bool, CommsError>(true)
            && frame_after@ == frame@.subrange(TRANSPORT_HEADER_LEN as int, frame@.len() as int)
    }

    /// Prepends the numbered header; fails, changing nothing, without
    /// headroom.
    fn down(&mut self, frame: &mut Frame) -> (r: Result<(), CommsError>)
        ensures
            old(frame).head() < TRANSPORT_HEADER_LEN ==> r == Err::<(), CommsError>(
                CommsError::BufferTooSmall,
            ) && *final(frame) == *old(frame) && final(self)@ == old(self)@,
            old(frame).head() >= TRANSPORT_HEADER_LEN ==> {
                &&& r is Ok
                &&& final(frame)@ == datagram_header(old(self)@, old(frame)@.len()) + old(
                    frame,
                )@
                &&& final(frame).head() == old(frame).head() - TRANSPORT_HEADER_LEN
                &&& final(self)@ == old(self)@.wrapping_add(1)
            },
    {
        let len = frame.len() as u16;
        let hdr: Vec<u8> = vec![
            self.seq,
            0u8,
            TransportFlags::FIRST_FRAG | TransportFlags::LAST_FRAG,
            len as u8,
            (len >> 8u16) as u8,
        ];
        assert(hdr@ =~= datagram_header(self@, old(frame)@.len()));
        match frame.prepend_header(hdr.as_slice()) {
            Ok(()) => {},
            Err(e) => {
                return Err(e);
            },
        }
        self.seq = self.seq.wrapping_add(1);
        Ok(())
    }

    /// Strips the header and delivers; shorter frames are dropped.
    fn up(&mut self, frame: &mut Frame) -> (r: Result<bool, CommsError>)
        ensures
            final(self)@ == old(self)@,
            old(frame)@.len() < TRANSPORT_HEADER_LEN ==> r == Ok::<bool, CommsError>(false)
                && *final(frame) == *old(frame),
            old(frame)@.len() >= TRANSPORT_HEADER_LEN ==> r == Ok::<bool, CommsError>(true)
                && final(frame)@ == old(frame)@.subrange(
                TRANSPORT_HEADER_LEN as int,
                old(frame)@.len() as int,
            ),
    {
        if frame.len() < TRANSPORT_HEADER_LEN {
            return Ok(false);
        }
        match frame.strip_header(TRANSPORT_HEADER_LEN) {
            Ok(_) => Ok(true),
            Err(e) => Err(e),
        }
    }
}

/// Law: the datagram header carries the sequence number, a zero
/// acknowledgement byte, the first- and last-fragment flags (0x03), and the
/// payload length, low byte first.
pub proof fn lemma_datagram_header_fields(seq: u8, len: nat)
    requires
        len < 65536,
    ensures
        datagram_header(seq, len).len() == TRANSPORT_HEADER_LEN,
        datagram_header(seq, len)[0] == seq,
        datagram_header(seq, len)[1] == 0,
        datagram_header(seq, len)[2] == 0x03u8,
        datagram_header(seq, len)[3] as int + 256 * (datagram_header(seq, len)[4] as int) == len,
{
    let l = len as u16;
    assert((l as u8) as int + 256 * (((l >> 8u16) as u8) as int) == l as int) by (bit_vector);
    assert(0x01u8 | 0x02u8 == 0x03u8) by (bit_vector);
}

/// Law: the reliable header carries the next sequence number, the last
/// sequence number accepted from the peer, the first- and last-fragment and
/// acknowledgement-request flags (0x07), and a payload length below 256 in
/// its low byte with a zero high byte.
pub proof fn lemma_reliable_header_fields(v: ReliableView, len: nat)
    requires
        len < 256,
    ensures
        reliable_header(v, len).len() == TRANSPORT_HEADER_LEN,
        reliable_header(v, len)[0] == v.seq,
        reliable_header(v, len)[1] == v.acked,
        reliable_header(v, len)[2] == 0x07u8,
        reliable_header(v, len)[3] as int == len,
        reliable_header(v, len)[4] == 0,
{
    assert(0x01u8 | 0x02u8 | 0x04u8 == 0x07u8) by (bit_vector);
}

/// Law: an incoming PDU whose flags mark it a pure acknowledgement is never
/// delivered; it completes the transfer (the transport goes idle, all else
/// kept) exactly when it acknowledges the last sequence number sent, and
/// otherwise (a stale or foreign acknowledgement) changes nothing. Any other
/// PDU keeps the transfer state and the counters: a repeat of the last
/// accepted sequence number while a transfer is open is dropped with nothing
/// changed; anything else is delivered and its sequence number accepted.
pub proof fn lemma_receive_step_cases(v: ReliableView, hdr: Seq<u8>)
    requires
        hdr.len() >= TRANSPORT_HEADER_LEN,
    ensures
        hdr[2] & 0x08u8 != 0 ==> !receive_step(v, hdr).1,
        hdr[2] & 0x08u8 != 0 && hdr[0] == v.seq.wrapping_sub(1) ==> receive_step(v, hdr).0 == (ReliableView {
            state: TransportState::Idle,
            ..v
        }),
        hdr[2] & 0x08u8 != 0 && hdr[0] != v.seq.wrapping_sub(1) ==> receive_step(v, hdr).0 == v,
        hdr[2] & 0x08u8 == 0 ==> receive_step(v, hdr).0.state == v.state && receive_step(v, hdr).0.seq == v.seq
            && receive_step(v, hdr).0.retries == v.retries && receive_step(v, hdr).0.max_retries == v.max_retries,
        hdr[2] & 0x08u8 == 0 && hdr[0] == v.acked && v.state != TransportState::Idle ==> receive_step(v, hdr) == (v, false),
        hdr[2] & 0x08u8 == 0 && !(hdr[0] == v.acked && v.state != TransportState::Idle) ==> receive_step(v, hdr).1
            && receive_step(v, hdr).0.acked == hdr[0],
{
}

/// Law: what the unreliable transport sends down, a peer's unreliable
/// transport delivers back up unchanged.
pub proof fn lemma_datagram_round_trip(seq: u8, payload: Seq<u8>)
    ensures
        ({
            let pdu = datagram_header(seq, payload.len()) + payload;
            pdu.len() >= TRANSPORT_HEADER_LEN && pdu.subrange(
                TRANSPORT_HEADER_LEN as int,
                pdu.len() as int,
            ) == payload
        }),
{
    let pdu = datagram_header(seq, payload.len()) + payload;
    assert(pdu.subrange(TRANSPORT_HEADER_LEN as int, pdu.len() as int) =~= payload);
}

/// Law: what the reliable transport sends down is delivered back up
/// unchanged by a receiver that has not yet accepted that sequence number
/// (or is idle); the receiver then records it as accepted.
pub proof fn lemma_reliable_round_trip(sender: ReliableView, receiver: ReliableView, payload: Seq<
    u8,
>)
    requires
        sender.seq != receiver.acked || receiver.state == TransportState::Idle,
    ensures
        ({
            let pdu = reliable_header(sender, payload.len()) + payload;
            let hdr = pdu.subrange(0, TRANSPORT_HEADER_LEN as int);
            &&& pdu.len() >= TRANSPORT_HEADER_LEN
            &&& pdu.subrange(TRANSPORT_HEADER_LEN as int, pdu.len() as int) == payload
            &&& receive_step(receiver, hdr).1
            &&& receive_step(receiver, hdr).0 == (ReliableView { acked: sender.seq, ..receiver })
        }),
{
    let pdu = reliable_header(sender, payload.len()) + payload;
    let hdr = pdu.subrange(0, TRANSPORT_HEADER_LEN as int);
    assert(pdu.subrange(TRANSPORT_HEADER_LEN as int, pdu.len() as int) =~= payload);
    assert(0x01u8 | 0x02u8 | 0x04u8 == 0x07u8) by (bit_vector);
    assert(0x07u8 & 0x08u8 == 0) by (bit_vector);
    assert(hdr[2] == 0x07u8);
}

/// Law: after a PDU goes down, an acknowledgement of its sequence number
/// completes the transfer and leaves the transport idle.
pub proof fn lemma_ack_completes_send(v: ReliableView)
    ensures
        ({
            let sent = ReliableView {
                seq: v.seq.wrapping_add(1),
                retries: v.max_retries,
                state: TransportState::WaitingAck,
                ..v
            };
            ack_step(sent, v.seq) == (
            (ReliableView { state: TransportState::Idle, ..sent }),
            TransportAction::TxComplete,
            )
        }),
{
}

/// Law: a PDU that went down with a budget of `n` retransmissions is
/// retransmitted on exactly `n` timer expiries and given up on the next.
pub proof fn lemma_retransmit_budget(v: ReliableView, k: nat)
    requires
        v.state == TransportState::WaitingAck,
        k <= v.retries,
    ensures
        timeouts(v, k).state == TransportState::WaitingAck,
        timeouts(v, k).retries == v.retries - k,
        k < v.retries ==> timeout_step(timeouts(v, k)).1 == TransportAction::ShouldRetransmit,
        k == v.retries ==> timeout_step(timeouts(v, k)).1 == TransportAction::GiveUp,
        k == v.retries ==> timeout_step(timeouts(v, k)).0.state == TransportState::Idle,
    decreases k,
{
    if k > 0 {
        lemma_retransmit_budget(v, (k - 1) as nat);
    }
}

/// Law: however many of its retransmissions have happened, an
/// acknowledgement of the last PDU that went down completes the transfer.
pub proof fn lemma_ack_after_retransmits(v: ReliableView, k: nat)
    requires
        k <= v.max_retries,
    ensures
        ({
            let sent = ReliableView {
                seq: v.seq.wrapping_add(1),
                retries: v.max_retries,
                state: TransportState::WaitingAck,
                ..v
            };
            &&& timeouts(sent, k).seq == sent.seq
            &&& ack_step(timeouts(sent, k), v.seq) == (
            (ReliableView { state: TransportState::Idle, ..timeouts(sent, k) }),
            TransportAction::TxComplete,
            )
        }),
{
    let sent = ReliableView { seq: v.seq.wrapping_add(1), retries: v.max_retries, state: TransportState::WaitingAck, ..v };
    lemma_retransmit_budget(sent, k);
    lemma_timeouts_keep_seq(sent, k);
    lemma_ack_completes_send(v);
}

/// Timer expiries never change the sequence numbers.
proof fn lemma_timeouts_keep_seq(v: ReliableView, k: nat)
    ensures
        timeouts(v, k).seq == v.seq,
        timeouts(v, k).acked == v.acked,
        timeouts(v, k).max_retries == v.max_retries,
    decreases k,
{
    if k > 0 {
        lemma_timeouts_keep_seq(v, (k - 1) as nat);
    }
}

/// Law: an idle transport (after a completion or a give-up) ignores any
/// number of timer expiries.
pub proof fn lemma_idle_ignores_timeouts(v: ReliableView, k: nat)
    requires
        v.state == TransportState::Idle,
    ensures
        timeouts(v, k) == v,
        timeout_step(timeouts(v, k)) == (v, TransportAction::Nothing),
    decreases k,
{
    if k > 0 {
        lemma_idle_ignores_timeouts(v, (k - 1) as nat);
    }
}

/// Something that happens to a reliable transport: a PDU went down
/// (`Sent`), a `down` was refused for want of headroom (`Refused`), the
/// retransmit timer expired, an acknowledgement of a sequence number came
/// (directly, or as an acknowledging PDU going up), or a data PDU with a
/// sequence number went up.
#[derive(Debug, Clone, Copy, PartialEq, Eq, Structural)]
pub enum TransportEvent {
    /// A PDU went down.
    Sent,
    /// A `down` was refused.
    Refused,
    /// The retransmit timer expired.
    Timeout,
    /// An acknowledgement of a sequence number came.
    Ack(u8),
    /// A data PDU with a sequence number went up.
    Received(u8),
}

/// Effect of one event on a reliable transport: its new state and the
/// action reported.
pub open spec fn transport_step(v: ReliableView, e: TransportEvent) -> (ReliableView, TransportAction) {
    match e {
        TransportEvent::Sent => (
            ReliableView { seq: v.seq.wrapping_add(1), retries: v.max_retries, state: TransportState::WaitingAck, ..v },
            TransportAction::Nothing,
        ),
        TransportEvent::Refused => (v, TransportAction::Nothing),
        TransportEvent::Timeout => timeout_step(v),
        TransportEvent::Ack(s) => ack_step(v, s),
        TransportEvent::Received(s) => (receive_step(v, seq![s, 0u8, 0u8, 0u8, 0u8]).0, TransportAction::Nothing),
    }
}

/// State after the events `evs`, in order, starting from `v`.
pub open spec fn transport_run(v: ReliableView, evs: Seq<TransportEvent>) -> ReliableView
    decreases evs.len(),
{
    if evs.len() == 0 {
        v
    } else {
        transport_step(transport_run(v, evs.drop_last()), evs.last()).0
    }
}

/// The action the `j`-th of `evs` reported.
pub open spec fn action_at(v: ReliableView, evs: Seq<TransportEvent>, j: int) -> TransportAction {
    transport_step(transport_run(v, evs.take(j)), evs[j]).1
}

/// The `i`-th of `evs` is a PDU going down, and no later event sent another,
/// completed the transfer or gave it up.
pub open spec fn awaiting_since(v: ReliableView, evs: Seq<TransportEvent>, i: int) -> bool {
    &&& 0 <= i < evs.len()
    &&& evs[i] is Sent
    &&& forall|j: int| i < j < evs.len() ==> !(evs[j] is Sent) && !(#[trigger] action_at(v, evs, j) is TxComplete)
        && !(action_at(v, evs, j) is GiveUp)
}

/// Law: a transport that started idle awaits an acknowledgement exactly
/// when some PDU went down and, since the latest one, no acknowledgement
/// completed the transfer and no timer expiry gave it up.
pub proof fn lemma_transport_history(v: ReliableView, evs: Seq<TransportEvent>)
    requires
        v.state == TransportState::Idle,
    ensures
        (transport_run(v, evs).state == TransportState::WaitingAck) <==> exists|i: int| awaiting_since(v, evs, i),
    decreases evs.len(),
{
    if evs.len() == 0 {
        if exists|i: int| awaiting_since(v, evs, i) {
            let i = choose|i: int| awaiting_since(v, evs, i);
            assert(false);
        }
    } else {
        let n = evs.len() - 1;
        let pre = evs.drop_last();
        let e = evs.last();
        lemma_transport_history(v, pre);
        assert(evs.take(n) =~= pre);
        let w = transport_run(v, pre);
        assert(transport_run(v, evs) == transport_step(w, e).0);
        assert(action_at(v, evs, n) == transport_step(w, e).1);
        assert forall|j: int| 0 <= j < n implies #[trigger] action_at(v, evs, j) == action_at(v, pre, j) by {
            assert(evs.take(j) =~= pre.take(j));
            assert(evs[j] == pre[j]);
        }
        if e is Sent {
            assert(awaiting_since(v, evs, n));
        } else {
            let last_ok = !(action_at(v, evs, n) is TxComplete) && !(action_at(v, evs, n) is GiveUp);
            if let TransportEvent::Received(s) = e {
                let hdr = seq![s, 0u8, 0u8, 0u8, 0u8];
                assert(hdr[2] == 0u8);
                assert(0u8 & TransportFlags::IS_ACK == 0) by (bit_vector);
            }
            assert((transport_step(w, e).0.state == TransportState::WaitingAck) <==> (w.state == TransportState::WaitingAck
                && last_ok));
            assert((exists|i: int| awaiting_since(v, evs, i)) <==> (last_ok && exists|i: int| awaiting_since(v, pre, i))) by {
                if exists|i: int| awaiting_since(v, evs, i) {
                    let i = choose|i: int| awaiting_since(v, evs, i);
                    assert(i < n);
                    if n > i {
                        assert(!(action_at(v, evs, n) is TxComplete) && !(action_at(v, evs, n) is GiveUp));
                    }
                    assert(awaiting_since(v, pre, i)) by {
                        assert forall|j: int| i < j < pre.len() implies !(pre[j] is Sent) && !(#[trigger] action_at(v, pre, j) is TxComplete)
                            && !(action_at(v, pre, j) is GiveUp) by {
                            assert(action_at(v, evs, j) == action_at(v, pre, j));
                            assert(evs[j] == pre[j]);
                        }
                    }
                }
                if last_ok && exists|i: int| awaiting_since(v, pre, i) {
                    let i = choose|i: int| awaiting_since(v, pre, i);
                    assert(awaiting_since(v, evs, i)) by {
                        assert forall|j: int| i < j < evs.len() implies !(evs[j] is Sent) && !(#[trigger] action_at(v, evs, j) is TxComplete)
                            && !(action_at(v, evs, j) is GiveUp) by {
                            if j < n {
                                assert(action_at(v, evs, j) == action_at(v, pre, j));
                                assert(evs[j] == pre[j]);
                            }
                        }
                    }
                }
            }
        }
    }
}

/// State after `k` consecutive retransmit-timer expiries.
pub open spec fn timeouts(v: ReliableView, k: nat) -> ReliableView
    decreases k,
{
    if k == 0 {
        v
    } else {
        timeout_step(timeouts(v, (k - 1) as nat)).0
    }
}

} // verus!
