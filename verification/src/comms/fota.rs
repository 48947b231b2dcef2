//! Firmware over the air: a chunked image transfer driven through the RF
//! stack's reliable transmit requests.
//!
//! Packets are `[type][index: u32 le][total: u32 le][data]` for chunks,
//! `[type][version: u32 le]` for the announcement and
//! `[type][size: u32 le][crc32: u32 le]` for the final verification.

use vstd::prelude::*;
use std::sync::Arc;
use crate::comms::events::{rf_signal, RfTxReqPayload, RF_TX_REQ_SIG_VAL};
use crate::comms::mac::lorawan::le32;
use crate::qf::active::ActiveObjectId;
use crate::qf::event::{DynEvent, Event, Payload};

verus! {

/// Packet type of the announcement.
pub const PKT_ANNOUNCE: u8 = 0x00;
/// Packet type of a chunk.
pub const PKT_CHUNK: u8 = 0x01;
/// Packet type of the verification.
pub const PKT_VERIFY: u8 = 0x03;

/// Image bytes per chunk packet.
pub const FOTA_CHUNK_BYTES: usize = 200;

/// FPort the transfer uses.
pub const FOTA_FPORT: u8 = 2;

/// Reflected CRC-32 polynomial (IEEE 802.3).
pub const CRC32_POLY: u32 = 0xEDB8_8320;

/// One bit step of the reflected CRC-32 register.
pub open spec fn crc_bit(c: u32) -> u32 {
    if c & 1u32 != 0 { (c >> 1u32) ^ CRC32_POLY } else { c >> 1u32 }
}

/// Eight bit steps.
pub open spec fn crc_bits(c: u32, n: nat) -> u32
    decreases n,
{
    if n == 0 { c } else { crc_bits(crc_bit(c), (n - 1) as nat) }
}

/// The CRC register after feeding `bytes` (initial value all ones).
pub open spec fn crc_register(bytes: Seq<u8>) -> u32
    decreases bytes.len(),
{
    if bytes.len() == 0 {
        0xFFFF_FFFFu32
    } else {
        crc_bits(crc_register(bytes.drop_last()) ^ (bytes.last() as u32), 8)
    }
}

/// CRC-32 (IEEE 802.3) of `bytes`.
pub open spec fn crc32(bytes: Seq<u8>) -> u32 {
    !crc_register(bytes)
}

/// CRC-32 (IEEE 802.3) of `bytes`.
pub fn compute_crc32(bytes: &[u8]) -> (c: u32)
    ensures
        c == crc32(bytes@),
{
    let mut crc: u32 = 0xFFFF_FFFF;
    let n = bytes.len();
    let mut i: usize = 0;
    while i < n
        invariant
            n == bytes@.len(),
            i <= n,
            crc == crc_register(bytes@.subrange(0, i as int)),
        decreases n - i,
    {
        let ghost prefix = bytes@.subrange(0, i as int + 1);
        proof {
            assert(prefix.drop_last() =~= bytes@.subrange(0, i as int));
            assert(prefix.last() == bytes@[i as int]);
        }
        crc = crc ^ (bytes[i] as u32);
        let ghost start = crc;
        let mut k: u32 = 0;
        while k < 8
            invariant
                k <= 8,
                crc_bits(start, 8) == crc_bits(crc, (8 - k) as nat),
            decreases 8 - k,
        {
            if crc & 1u32 != 0 {
                crc = (crc >> 1u32) ^ CRC32_POLY;
            } else {
                crc = crc >> 1u32;
            }
            k = k + 1;
        }
        i = i + 1;
    }
    assert(bytes@.subrange(0, n as int) =~= bytes@);
    !crc
}

/// Outcome of [`FotaDriver::on_tx_done`].
#[derive(Debug, Clone, Copy, PartialEq, Eq, Structural)]
pub enum FotaStatus {
    /// A chunk was requested; wait for the transmission to complete.
    Sending,
    /// Every chunk went out and the verification was requested.
    Done,
    /// The transfer failed earlier.
    Failed,
}

/// `e` is a transmit request for `pkt` on the FOTA port.
pub open spec fn is_tx_request(e: DynEvent, pkt: Seq<u8>, reliable: bool) -> bool {
    &&& e.header.signal@ == RF_TX_REQ_SIG_VAL
    &&& match *e.payload {
        Payload::TxReq(p) => p.data@ == pkt && p.fport == FOTA_FPORT && p.reliable == reliable,
        _ => false,
    }
}

/// Number of chunks of an image of `len` bytes (its length taken as a
/// 32-bit value).
pub open spec fn chunk_count(len: nat) -> u32 {
    let l = len as u32;
    (l / (FOTA_CHUNK_BYTES as u32) + if l % (FOTA_CHUNK_BYTES as u32) != 0 { 1u32 } else { 0u32 }) as u32
}

/// Chunk `i` of `image`.
pub open spec fn chunk_of(image: Seq<u8>, i: u32) -> Seq<u8> {
    let s = i * FOTA_CHUNK_BYTES;
    let e = if s + FOTA_CHUNK_BYTES < image.len() { s + FOTA_CHUNK_BYTES } else { image.len() as int };
    image.subrange(s, e)
}

/// Packet carrying chunk `i` of `total`.
pub open spec fn chunk_packet(image: Seq<u8>, i: u32, total: u32) -> Seq<u8> {
    seq![PKT_CHUNK] + le32(i) + le32(total) + chunk_of(image, i)
}

/// Verification packet of an image.
pub open spec fn verify_packet(image: Seq<u8>) -> Seq<u8> {
    seq![PKT_VERIFY] + le32(image.len() as u32) + le32(crc32(image))
}

/// Announcement packet of a firmware version.
pub open spec fn announce_packet(fw_version: u32) -> Seq<u8> {
    seq![PKT_ANNOUNCE] + le32(fw_version)
}

/// Drives a chunked firmware transfer: each completed transmission
/// releases the next chunk as a reliable transmit request for the RF stack
/// active object; the requests wait in an outbox for the caller to post.
pub struct FotaDriver {
    rf_ao: ActiveObjectId,
    image: Vec<u8>,
    total_chunks: u32,
    next: u32,
    failed: bool,
    outbox: Vec<DynEvent>,
}

impl FotaDriver {
    /// The image.
    pub closed spec fn img(&self) -> Seq<u8> {
        self.image@
    }

    /// Number of chunks.
    pub closed spec fn total(&self) -> u32 {
        self.total_chunks
    }

    /// Index of the next chunk.
    pub closed spec fn next_index(&self) -> u32 {
        self.next
    }

    /// Whether the transfer failed.
    pub closed spec fn has_failed(&self) -> bool {
        self.failed
    }

    /// Transmit requests not yet taken.
    pub closed spec fn posted(&self) -> Seq<DynEvent> {
        self.outbox@
    }

    /// The active object the requests are for.
    pub closed spec fn target(&self) -> ActiveObjectId {
        self.rf_ao
    }

    /// Well-formedness: the chunk count fits the image.
    pub closed spec fn wf(&self) -> bool {
        &&& self.total_chunks == chunk_count(self.image@.len())
        &&& self.next <= self.total_chunks
    }

    /// A transfer of `image` through the RF stack object `rf_ao`.
    pub fn new(rf_ao: ActiveObjectId, image: Vec<u8>) -> (d: FotaDriver)
        ensures
            d.wf(),
            d.img() == image@,
            d.total() == chunk_count(image@.len()),
            d.next_index() == 0,
            !d.has_failed(),
            d.posted() == Seq::<DynEvent>::empty(),
            d.target() == rf_ao,
    {
        let len = image.len() as u32;
        let total_chunks = len / (FOTA_CHUNK_BYTES as u32) + if len % (FOTA_CHUNK_BYTES as u32) != 0 { 1u32 } else { 0u32 };
        FotaDriver { rf_ao, image, total_chunks, next: 0, failed: false, outbox: Vec::new() }
    }

    /// The active object the requests are for.
    pub fn rf_ao(&self) -> (id: ActiveObjectId)
        ensures
            id == self.target(),
    {
        self.rf_ao
    }

    /// Number of chunks.
    pub fn total_chunks(&self) -> (n: u32)
        ensures
            n == self.total(),
    {
        self.total_chunks
    }

    /// Index of the next chunk.
    pub fn next_chunk_index(&self) -> (i: u32)
        ensures
            i == self.next_index(),
    {
        self.next
    }

    /// Whether the transfer failed.
    pub fn is_failed(&self) -> (b: bool)
        ensures
            b == self.has_failed(),
    {
        self.failed
    }

    /// Takes the transmit requests produced so far.
    pub fn take_posted(&mut self) -> (r: Vec<DynEvent>)
        ensures
            r@ == old(self).posted(),
            final(self).posted() == Seq::<DynEvent>::empty(),
            final(self).img() == old(self).img(),
            final(self).total() == old(self).total(),
            final(self).next_index() == old(self).next_index(),
            final(self).has_failed() == old(self).has_failed(),
            final(self).target() == old(self).target(),
            final(self).wf() == old(self).wf(),
    {
        let mut r = Vec::new();
        std::mem::swap(&mut r, &mut self.outbox);
        r
    }

    fn post_tx(&mut self, pkt: Vec<u8>, reliable: bool)
        ensures
            final(self).posted().len() == old(self).posted().len() + 1,
            final(self).posted().drop_last() == old(self).posted(),
            is_tx_request(final(self).posted().last(), pkt@, reliable),
            final(self).img() == old(self).img(),
            final(self).total() == old(self).total(),
            final(self).next_index() == old(self).next_index(),
            final(self).has_failed() == old(self).has_failed(),
            final(self).target() == old(self).target(),
            final(self).wf() == old(self).wf(),
    {
        let req = RfTxReqPayload::with_reliability(pkt, FOTA_FPORT, reliable);
        let ev = Event::with_payload(rf_signal(RF_TX_REQ_SIG_VAL), Payload::TxReq(req));
        self.outbox.push(ev);
        assert(self.outbox@.drop_last() =~= old(self).outbox@);
    }

    /// Requests an unreliable announcement of firmware `fw_version`.
    pub fn start_announce(&mut self, fw_version: u32) -> (r: Result<(), crate::comms::error::CommsError>)
        ensures
            r is Ok,
            final(self).posted().drop_last() == old(self).posted(),
            final(self).posted().len() == old(self).posted().len() + 1,
            is_tx_request(final(self).posted().last(), announce_packet(fw_version), false),
            final(self).img() == old(self).img(),
            final(self).total() == old(self).total(),
            final(self).next_index() == old(self).next_index(),
            final(self).has_failed() == old(self).has_failed(),
            final(self).wf() == old(self).wf(),
    {
        let pkt: Vec<u8> = vec![
            PKT_ANNOUNCE,
            fw_version as u8,
            (fw_version >> 8u32) as u8,
            (fw_version >> 16u32) as u8,
            (fw_version >> 24u32) as u8,
        ];
        assert(pkt@ =~= announce_packet(fw_version));
        self.post_tx(pkt, false);
        Ok(())
    }

    /// The previous transmission completed: request the next chunk, or,
    /// after the last one, the verification of the whole image.
    pub fn on_tx_done(&mut self) -> (s: FotaStatus)
        requires
            old(self).wf(),
        ensures
            final(self).wf(),
            final(self).img() == old(self).img(),
            final(self).total() == old(self).total(),
            final(self).has_failed() == old(self).has_failed(),
            old(self).has_failed() ==> s == FotaStatus::Failed && final(self).posted() == old(self).posted()
                && final(self).next_index() == old(self).next_index(),
            !old(self).has_failed() && old(self).next_index() >= old(self).total() ==> s == FotaStatus::Done
                && final(self).next_index() == old(self).next_index()
                && final(self).posted().drop_last() == old(self).posted()
                && final(self).posted().len() == old(self).posted().len() + 1
                && is_tx_request(final(self).posted().last(), verify_packet(old(self).img()), true),
            !old(self).has_failed() && old(self).next_index() < old(self).total() ==> s == FotaStatus::Sending
                && final(self).next_index() == old(self).next_index() + 1
                && final(self).posted().drop_last() == old(self).posted()
                && final(self).posted().len() == old(self).posted().len() + 1
                && is_tx_request(
                    final(self).posted().last(),
                    chunk_packet(old(self).img(), old(self).next_index(), old(self).total()),
                    true,
                ),
    {
        if self.failed {
            return FotaStatus::Failed;
        }
        if self.next >= self.total_chunks {
            let crc = compute_crc32(self.image.as_slice());
            let size = self.image.len() as u32;
            let pkt: Vec<u8> = vec![
                PKT_VERIFY,
                size as u8, (size >> 8u32) as u8, (size >> 16u32) as u8, (size >> 24u32) as u8,
                crc as u8, (crc >> 8u32) as u8, (crc >> 16u32) as u8, (crc >> 24u32) as u8,
            ];
            assert(pkt@ =~= verify_packet(self.image@));
            self.post_tx(pkt, true);
            return FotaStatus::Done;
        }
        let len = self.image.len();
        proof {
            let l = len as u32;
            assert(self.next * 200 < l) by (nonlinear_arith)
                requires
                    self.next < (l / 200u32 + if l % 200u32 != 0 { 1u32 } else { 0u32 }) as u32,
                    l / 200u32 + 1 <= 0xFFFF_FFFFu32,
            ;
            assert(l <= len) by (bit_vector)
                requires l == len as u32;
        }
        let start = (self.next as u64 * FOTA_CHUNK_BYTES as u64) as usize;
        let end = if len - start > FOTA_CHUNK_BYTES { start + FOTA_CHUNK_BYTES } else { len };
        let next = self.next;
        let total = self.total_chunks;
        let mut pkt: Vec<u8> = vec![
            PKT_CHUNK,
            next as u8, (next >> 8u32) as u8, (next >> 16u32) as u8, (next >> 24u32) as u8,
            total as u8, (total >> 8u32) as u8, (total >> 16u32) as u8, (total >> 24u32) as u8,
        ];
        let ghost head = pkt@;
        let mut k = start;
        while k < end
            invariant
                start <= k <= end <= len,
                len == self.image@.len(),
                pkt@ == head + self.image@.subrange(start as int, k as int),
            decreases end - k,
        {
            pkt.push(self.image[k]);
            k = k + 1;
            assert(pkt@ =~= head + self.image@.subrange(start as int, k as int));
        }
        assert(pkt@ =~= chunk_packet(self.image@, next, total));
        self.post_tx(pkt, true);
        self.next = self.next + 1;
        FotaStatus::Sending
    }

    /// The transmission failed for good: abort the transfer.
    pub fn on_tx_fail(&mut self)
        ensures
            final(self).has_failed(),
            final(self).img() == old(self).img(),
            final(self).total() == old(self).total(),
            final(self).next_index() == old(self).next_index(),
            final(self).posted() == old(self).posted(),
            final(self).wf() == old(self).wf(),
    {
        self.failed = true;
    }
}

} // verus!
