//! LoRaWAN class A MAC layer: payload encryption (AES-128 in counter mode
//! under the application session key), the 9-byte MAC header and the 4-byte
//! message integrity code (AES-128 CMAC under the network session key).

use vstd::prelude::*;
use aes::cipher::generic_array::GenericArray;
use aes::cipher::{BlockEncrypt, KeyInit};
use cmac::Mac;
use crate::comms::buf::{Frame, MAX_FRAME};
use crate::comms::error::CommsError;
use crate::comms::session::LoRaSession;
use crate::comms::stack::Layer;
use crate::comms::transport::TransportAction;

verus! {

/// AES-128 encryption of one 16-byte `block` under a 16-byte `key`.
pub uninterp spec fn aes128_encrypt(key: Seq<u8>, block: Seq<u8>) -> Seq<u8>;

/// AES-128 CMAC (RFC 4493) of `msg` under a 16-byte `key`.
pub uninterp spec fn aes128_cmac(key: Seq<u8>, msg: Seq<u8>) -> Seq<u8>;

/// Encrypts one block with AES-128 from the `aes` crate (`Aes128::new` then
/// `BlockEncrypt::encrypt_block`). Claimed: the result is that cipher's
/// output for this key and block, 16 bytes long. `from_slice` panics unless
/// key and block are 16 bytes, hence the precondition.
#[verifier::external_body]
fn aes128_encrypt_block(key: &[u8], block: &[u8]) -> (r: Vec<u8>)
    requires
        key@.len() == 16,
        block@.len() == 16,
    ensures
        r@ == aes128_encrypt(key@, block@),
        r@.len() == 16,
{
    let cipher = aes::Aes128::new(GenericArray::from_slice(key));
    let mut b = aes::Block::clone_from_slice(block);
    cipher.encrypt_block(&mut b);
    b.to_vec()
}

/// CMAC with AES-128 from the `cmac` crate: a `Cmac<Aes128>` keyed with
/// `key`, updated with `first` and then `second`, finalised. Claimed: the tag
/// is the CMAC of the concatenation (successive updates feed one message),
/// 16 bytes long (the cipher's block size).
#[verifier::external_body]
fn aes128_cmac_of(key: &[u8], first: &[u8], second: &[u8]) -> (r: Vec<u8>)
    requires
        key@.len() == 16,
    ensures
        r@ == aes128_cmac(key@, first@ + second@),
        r@.len() == 16,
{
    let mut mac = <cmac::Cmac<aes::Aes128> as KeyInit>::new(GenericArray::from_slice(key));
    mac.update(first);
    mac.update(second);
    mac.finalize().into_bytes().to_vec()
}

/// Little-endian bytes of a 32-bit counter.
pub open spec fn le32(x: u32) -> Seq<u8> {
    seq![x as u8, (x >> 8u32) as u8, (x >> 16u32) as u8, (x >> 24u32) as u8]
}

/// Counter block `i` (1-based) of the payload keystream.
pub open spec fn ctr_block(dir: u8, dev_addr: Seq<u8>, fcnt: u32, i: nat) -> Seq<u8> {
    seq![0x01u8, 0u8, 0u8, 0u8, 0u8, dir] + dev_addr + le32(fcnt) + seq![0u8, i as u8]
}

/// Keystream byte at position `k` of a payload.
pub open spec fn keystream_byte(key: Seq<u8>, dev_addr: Seq<u8>, fcnt: u32, dir: u8, k: int) -> u8 {
    aes128_encrypt(key, ctr_block(dir, dev_addr, fcnt, (k / 16 + 1) as nat))[k % 16]
}

/// FRMPayload encryption (and decryption: it is its own inverse).
pub open spec fn frm_crypt(data: Seq<u8>, key: Seq<u8>, dev_addr: Seq<u8>, fcnt: u32, dir: u8) -> Seq<u8> {
    Seq::new(data.len(), |k: int| data[k] ^ keystream_byte(key, dev_addr, fcnt, dir, k))
}

/// The B0 block prefixed to a message for its integrity code.
pub open spec fn mic_b0(dir: u8, dev_addr: Seq<u8>, fcnt: u32, len: nat) -> Seq<u8> {
    seq![0x49u8, 0u8, 0u8, 0u8, 0u8, dir] + dev_addr + le32(fcnt) + seq![0u8, len as u8]
}

/// Message integrity code: the first 4 bytes of the CMAC of B0 and `msg`.
pub open spec fn mic_of(msg: Seq<u8>, key: Seq<u8>, dev_addr: Seq<u8>, fcnt: u32, dir: u8) -> Seq<u8> {
    aes128_cmac(key, mic_b0(dir, dev_addr, fcnt, msg.len()) + msg).subrange(0, 4)
}

/// The 9-byte header of an unconfirmed uplink.
pub open spec fn uplink_header(dev_addr: Seq<u8>, fcnt: u32, fport: u8) -> Seq<u8> {
    seq![0x40u8] + dev_addr + seq![0u8, fcnt as u8, (fcnt >> 8u32) as u8, fport]
}

/// Frame counter carried in a MAC header (bytes 6 and 7, little endian).
pub open spec fn header_fcnt(hdr: Seq<u8>) -> u32 {
    (hdr[6] as u32) | ((hdr[7] as u32) << 8u32)
}

/// Law: the uplink header is the unconfirmed-uplink type byte 0x40, the
/// device address, a zero control byte, the uplink counter modulo 65536 low
/// byte first (as a receiver reads it back), and the port.
pub proof fn lemma_uplink_header_fields(dev_addr: Seq<u8>, fcnt: u32, fport: u8)
    requires
        dev_addr.len() == 4,
    ensures
        uplink_header(dev_addr, fcnt, fport).len() == 9,
        uplink_header(dev_addr, fcnt, fport)[0] == 0x40u8,
        uplink_header(dev_addr, fcnt, fport).subrange(1, 5) == dev_addr,
        uplink_header(dev_addr, fcnt, fport)[5] == 0,
        uplink_header(dev_addr, fcnt, fport)[6] as int + 256 * (uplink_header(dev_addr, fcnt, fport)[7] as int) == fcnt % 65536,
        uplink_header(dev_addr, fcnt, fport)[8] == fport,
        header_fcnt(uplink_header(dev_addr, fcnt, fport)) == fcnt % 65536,
{
    let h = uplink_header(dev_addr, fcnt, fport);
    assert(h.subrange(1, 5) =~= dev_addr);
    assert(h[6] == fcnt as u8 && h[7] == (fcnt >> 8u32) as u8);
    assert((fcnt as u8) as int + 256 * (((fcnt >> 8u32) as u8) as int) == fcnt % 65536) by (bit_vector);
    assert(((fcnt as u8) as u32) | ((((fcnt >> 8u32) as u8) as u32) << 8u32) == fcnt % 65536) by (bit_vector);
}

/// Law: the frame counter read from a MAC header is bytes 6 and 7, low
/// byte first.
pub proof fn lemma_header_fcnt_bytes(hdr: Seq<u8>)
    requires
        hdr.len() >= 8,
    ensures
        header_fcnt(hdr) as int == hdr[6] as int + 256 * (hdr[7] as int),
{
    let lo = hdr[6];
    let hi = hdr[7];
    assert(((lo as u32) | ((hi as u32) << 8u32)) as int == lo as int + 256 * (hi as int)) by (bit_vector);
}

/// Law: `le32` is the four bytes of a counter, low byte first.
pub proof fn lemma_le32_value(x: u32)
    ensures
        le32(x).len() == 4,
        le32(x)[0] as int + 256 * (le32(x)[1] as int) + 65536 * (le32(x)[2] as int) + 16777216 * (le32(x)[3] as int) == x as int,
{
    assert((x as u8) as int + 256 * (((x >> 8u32) as u8) as int) + 65536 * (((x >> 16u32) as u8) as int) + 16777216 * (((x
        >> 24u32) as u8) as int) == x as int) by (bit_vector);
}

/// Law: keystream counter block `i` is 0x01, four zero bytes, the
/// direction, the device address, the frame counter low byte first, a zero
/// byte and `i`; the integrity block B0 is 0x49, four zero bytes, the
/// direction, the device address, the frame counter low byte first, a zero
/// byte and the message length.
pub proof fn lemma_crypto_blocks(dir: u8, dev_addr: Seq<u8>, fcnt: u32, i: u8, len: u8)
    requires
        dev_addr.len() == 4,
    ensures
        ctr_block(dir, dev_addr, fcnt, i as nat).len() == 16,
        ctr_block(dir, dev_addr, fcnt, i as nat)[0] == 0x01u8,
        ctr_block(dir, dev_addr, fcnt, i as nat).subrange(1, 5) == seq![0u8, 0u8, 0u8, 0u8],
        ctr_block(dir, dev_addr, fcnt, i as nat)[5] == dir,
        ctr_block(dir, dev_addr, fcnt, i as nat).subrange(6, 10) == dev_addr,
        ctr_block(dir, dev_addr, fcnt, i as nat).subrange(10, 14) == le32(fcnt),
        ctr_block(dir, dev_addr, fcnt, i as nat)[14] == 0,
        ctr_block(dir, dev_addr, fcnt, i as nat)[15] == i,
        mic_b0(dir, dev_addr, fcnt, len as nat).len() == 16,
        mic_b0(dir, dev_addr, fcnt, len as nat)[0] == 0x49u8,
        mic_b0(dir, dev_addr, fcnt, len as nat).subrange(1, 5) == seq![0u8, 0u8, 0u8, 0u8],
        mic_b0(dir, dev_addr, fcnt, len as nat)[5] == dir,
        mic_b0(dir, dev_addr, fcnt, len as nat).subrange(6, 10) == dev_addr,
        mic_b0(dir, dev_addr, fcnt, len as nat).subrange(10, 14) == le32(fcnt),
        mic_b0(dir, dev_addr, fcnt, len as nat)[14] == 0,
        mic_b0(dir, dev_addr, fcnt, len as nat)[15] == len,
{
    let c = ctr_block(dir, dev_addr, fcnt, i as nat);
    let b = mic_b0(dir, dev_addr, fcnt, len as nat);
    assert(c.subrange(1, 5) =~= seq![0u8, 0u8, 0u8, 0u8]);
    assert(c.subrange(6, 10) =~= dev_addr);
    assert(c.subrange(10, 14) =~= le32(fcnt));
    assert(b.subrange(1, 5) =~= seq![0u8, 0u8, 0u8, 0u8]);
    assert(b.subrange(6, 10) =~= dev_addr);
    assert(b.subrange(10, 14) =~= le32(fcnt));
    assert((i as nat) as u8 == i);
}

/// Counter block for the keystream.
pub fn ctr_block_bytes(dir: u8, dev_addr: &[u8], fcnt: u32, i: u8) -> (b: Vec<u8>)
    requires
        dev_addr@.len() == 4,
    ensures
        b@ == ctr_block(dir, dev_addr@, fcnt, i as nat),
{
    let b: Vec<u8> = vec![
        0x01u8, 0u8, 0u8, 0u8, 0u8, dir,
        dev_addr[0], dev_addr[1], dev_addr[2], dev_addr[3],
        fcnt as u8, (fcnt >> 8u32) as u8, (fcnt >> 16u32) as u8, (fcnt >> 24u32) as u8,
        0u8, i,
    ];
    assert(b@ =~= ctr_block(dir, dev_addr@, fcnt, i as nat));
    b
}

/// The B0 block for a message of `len` bytes.
pub fn mic_b0_bytes(dir: u8, dev_addr: &[u8], fcnt: u32, len: usize) -> (b: Vec<u8>)
    requires
        dev_addr@.len() == 4,
    ensures
        b@ == mic_b0(dir, dev_addr@, fcnt, len as nat),
{
    let b: Vec<u8> = vec![
        0x49u8, 0u8, 0u8, 0u8, 0u8, dir,
        dev_addr[0], dev_addr[1], dev_addr[2], dev_addr[3],
        fcnt as u8, (fcnt >> 8u32) as u8, (fcnt >> 16u32) as u8, (fcnt >> 24u32) as u8,
        0u8, len as u8,
    ];
    assert(b@ =~= mic_b0(dir, dev_addr@, fcnt, len as nat));
    b
}

/// XORs `keystream` into `data`, byte by byte.
pub fn xor_keystream(data: &mut [u8], keystream: &[u8])
    requires
        old(data)@.len() <= keystream@.len(),
    ensures
        final(data)@.len() == old(data)@.len(),
        forall|k: int| 0 <= k < old(data)@.len() ==> #[trigger] final(data)@[k] == old(data)@[k] ^ keystream@[k],
{
    let n = data.len();
    let mut k: usize = 0;
    while k < n
        invariant
            n == old(data)@.len(),
            n <= keystream@.len(),
            data@.len() == n,
            k <= n,
            forall|j: int| 0 <= j < k ==> #[trigger] data@[j] == old(data)@[j] ^ keystream@[j],
            forall|j: int| k <= j < n ==> #[trigger] data@[j] == old(data)@[j],
        decreases n - k,
    {
        let v = data[k] ^ keystream[k];
        data[k] = v;
        k = k + 1;
    }
}

/// Encrypts (or decrypts) an FRMPayload of at most [`MAX_FRAME`] bytes in
/// place with the AES-128 counter-mode keystream of `key`, `dev_addr`,
/// `fcnt` and direction `dir` (0 uplink, 1 downlink).
pub fn encrypt_frm_payload(data: &mut [u8], key: &[u8], dev_addr: &[u8], fcnt: u32, dir: u8) -> (r: Result<(), CommsError>)
    requires
        old(data)@.len() <= MAX_FRAME,
        key@.len() == 16,
        dev_addr@.len() == 4,
    ensures
        r is Ok,
        final(data)@ == frm_crypt(old(data)@, key@, dev_addr@, fcnt, dir),
{
    let n = data.len();
    let num_blocks = (n + 15) / 16;
    let mut keystream: Vec<u8> = Vec::new();
    let mut i: usize = 1;
    while i <= num_blocks
        invariant
            n <= MAX_FRAME,
            num_blocks == (n + 15) / 16,
            1 <= i <= num_blocks + 1,
            key@.len() == 16,
            dev_addr@.len() == 4,
            keystream@.len() == (i - 1) * 16,
            forall|k: int| 0 <= k < keystream@.len() ==> #[trigger] keystream@[k] == keystream_byte(key@, dev_addr@, fcnt, dir, k),
        decreases num_blocks + 1 - i,
    {
        let ctr = ctr_block_bytes(dir, dev_addr, fcnt, i as u8);
        let block = aes128_encrypt_block(key, ctr.as_slice());
        let ghost before = keystream@;
        let mut j: usize = 0;
        while j < 16
            invariant
                block@.len() == 16,
                block@ == aes128_encrypt(key@, ctr_block(dir, dev_addr@, fcnt, i as nat)),
                1 <= i <= 16,
                j <= 16,
                before.len() == (i - 1) * 16,
                keystream@.len() == before.len() + j,
                forall|k: int| 0 <= k < before.len() ==> #[trigger] keystream@[k] == before[k],
                forall|k: int| 0 <= k < j ==> #[trigger] keystream@[before.len() + k] == block@[k],
            decreases 16 - j,
        {
            keystream.push(block[j]);
            j = j + 1;
        }
        proof {
            assert forall|k: int| 0 <= k < keystream@.len() implies #[trigger] keystream@[k] == keystream_byte(key@, dev_addr@, fcnt, dir, k) by {
                if k >= before.len() {
                    let off = k - before.len();
                    assert(keystream@[before.len() + off] == block@[off]);
                    assert(k / 16 == i - 1) by (nonlinear_arith)
                        requires k == (i - 1) * 16 + off, 0 <= off < 16;
                    assert(k % 16 == off) by (nonlinear_arith)
                        requires k == (i - 1) * 16 + off, 0 <= off < 16;
                    assert((i as u8) as nat == i);
                }
            }
        }
        i = i + 1;
    }
    assert(num_blocks * 16 >= n) by (nonlinear_arith)
        requires num_blocks == (n + 15) / 16;
    xor_keystream(data, keystream.as_slice());
    assert(data@ =~= frm_crypt(old(data)@, key@, dev_addr@, fcnt, dir));
    Ok(())
}

/// Message integrity code of `msg` under `key` for `dev_addr`, `fcnt` and
/// direction `dir`.
pub fn compute_mic(msg: &[u8], key: &[u8], dev_addr: &[u8], fcnt: u32, dir: u8) -> (r: Result<[u8; 4], CommsError>)
    requires
        key@.len() == 16,
        dev_addr@.len() == 4,
    ensures
        r matches Ok(m) && m@ == mic_of(msg@, key@, dev_addr@, fcnt, dir),
{
    let b0 = mic_b0_bytes(dir, dev_addr, fcnt, msg.len());
    let tag = aes128_cmac_of(key, b0.as_slice(), msg);
    Ok(truncate_tag(tag.as_slice()))
}

/// The first four bytes of a tag.
pub fn truncate_tag(tag: &[u8]) -> (m: [u8; 4])
    requires
        tag@.len() >= 4,
    ensures
        m@ == tag@.subrange(0, 4),
{
    let m: [u8; 4] = [tag[0], tag[1], tag[2], tag[3]];
    assert(m@ =~= tag@.subrange(0, 4));
    m
}

/// Abstract state of a [`LoRaWanMac`].
#[derive(Debug, Clone, Copy, PartialEq, Eq, Structural)]
pub struct MacView {
    /// Uplink frame counter.
    pub fcnt_up: u32,
    /// Next expected downlink frame counter.
    pub fcnt_dn: u32,
    /// FPort of uplinks.
    pub fport: u8,
}

/// LoRaWAN class A MAC layer of one ABP session.
pub struct LoRaWanMac {
    dev_addr: [u8; 4],
    nwk_skey: [u8; 16],
    app_skey: [u8; 16],
    fcnt_up: u32,
    fcnt_dn: u32,
    fport: u8,
}

impl View for LoRaWanMac {
    type V = MacView;

    closed spec fn view(&self) -> MacView {
        MacView { fcnt_up: self.fcnt_up, fcnt_dn: self.fcnt_dn, fport: self.fport }
    }
}

impl LoRaWanMac {
    /// Device address.
    pub closed spec fn addr(&self) -> Seq<u8> {
        self.dev_addr@
    }

    /// Network session key.
    pub closed spec fn nwk_key(&self) -> Seq<u8> {
        self.nwk_skey@
    }

    /// Application session key.
    pub closed spec fn app_key(&self) -> Seq<u8> {
        self.app_skey@
    }

    /// A MAC layer for `session`, sending uplinks on `fport`.
    pub fn new(session: LoRaSession, fport: u8) -> (m: LoRaWanMac)
        ensures
            m.addr() == session.dev_addr@,
            m.nwk_key() == session.nwk_skey@,
            m.app_key() == session.app_skey@,
            m@ == (MacView { fcnt_up: session.fcnt_up, fcnt_dn: 0, fport }),
    {
        LoRaWanMac {
            dev_addr: session.dev_addr,
            nwk_skey: session.nwk_skey,
            app_skey: session.app_skey,
            fcnt_up: session.fcnt_up,
            fcnt_dn: 0,
            fport,
        }
    }

    /// Uplink frame counter.
    pub fn fcnt_up(&self) -> (c: u32)
        ensures
            c == self@.fcnt_up,
    {
        self.fcnt_up
    }

    /// Next expected downlink frame counter.
    pub fn fcnt_dn(&self) -> (c: u32)
        ensures
            c == self@.fcnt_dn,
    {
        self.fcnt_dn
    }
}

/// Length of the LoRaWAN MAC header.
pub const LORAWAN_HEADER_LEN: usize = 9;

/// Length of the message integrity code.
pub const MIC_LEN: usize = 4;

/// Shortest downlink the MAC accepts: header, MIC.
pub const MIN_DOWNLINK_LEN: usize = 13;

impl Layer for LoRaWanMac {
    open spec fn timeout_spec(self, a: TransportAction, after: Self) -> bool {
        a == TransportAction::Nothing && after == self
    }

    /// Nothing to retransmit at this layer.
    fn on_timeout(&mut self) -> (a: TransportAction) {
        TransportAction::Nothing
    }

    open spec fn down_spec(self, frame: Frame, r: Result<(), CommsError>, after: Self, frame_after: Frame) -> bool {
        let enc = frm_crypt(frame@, self.app_key(), self.addr(), self@.fcnt_up, 0);
        let hdr = uplink_header(self.addr(), self@.fcnt_up, self@.fport);
        let mic = mic_of(hdr + enc, self.nwk_key(), self.addr(), self@.fcnt_up, 0);
        &&& after.addr() == self.addr()
        &&& after.nwk_key() == self.nwk_key()
        &&& after.app_key() == self.app_key()
        &&& frame.head() < LORAWAN_HEADER_LEN ==> r == Err::<(), CommsError>(CommsError::BufferTooSmall)
            && frame_after@ == enc && after@ == self@
        &&& frame.head() >= LORAWAN_HEADER_LEN && frame.tail() + MIC_LEN > MAX_FRAME
            ==> r == Err::<(), CommsError>(CommsError::BufferTooSmall) && frame_after@ == hdr + enc
            && after@ == self@
        &&& frame.head() >= LORAWAN_HEADER_LEN && frame.tail() + MIC_LEN <= MAX_FRAME
            ==> r is Ok && frame_after@ == hdr + enc + mic
            && frame_after@.len() == frame@.len() + LORAWAN_HEADER_LEN + MIC_LEN
            && frame_after.head() == frame.head() - LORAWAN_HEADER_LEN
            && after@ == (MacView { fcnt_up: self@.fcnt_up.wrapping_add(1), ..self@ })
    }

    open spec fn up_spec(self, frame: Frame, r: Result<bool, CommsError>, after: Self, frame_after: Frame) -> bool {
        &&& after.addr() == self.addr()
        &&& after.nwk_key() == self.nwk_key()
        &&& after.app_key() == self.app_key()
        &&& after@.fcnt_up == self@.fcnt_up
        &&& after@.fport == self@.fport
        &&& frame@.len() < MIN_DOWNLINK_LEN ==> r == Ok::<bool, CommsError>(false)
            && frame_after == frame && after@ == self@
        &&& frame@.len() >= MIN_DOWNLINK_LEN ==> ({
            let p = frame@;
            let body = p.subrange(0, p.len() - MIC_LEN);
            let mic = p.subrange(p.len() - MIC_LEN, p.len() as int);
            let fcnt = header_fcnt(body);
            let ok = body.subrange(1, 5) == self.addr()
                && mic == mic_of(body, self.nwk_key(), self.addr(), fcnt, 1);
            &&& r == Ok::<bool, CommsError>(ok)
            &&& !ok ==> frame_after@ == body && after@ == self@
            &&& ok ==> frame_after@ == frm_crypt(
                body.subrange(LORAWAN_HEADER_LEN as int, body.len() as int),
                self.app_key(),
                self.addr(),
                fcnt,
                1,
            ) && after@.fcnt_dn == fcnt.wrapping_add(1)
        })
    }

    /// Encrypts the payload in place, prepends the uplink header, appends the
    /// MIC and advances the uplink counter. Without headroom for the header
    /// it fails with the payload already encrypted; without room for the MIC
    /// it fails with the header in place.
    fn down(&mut self, frame: &mut Frame) -> (r: Result<(), CommsError>)
        ensures
            final(self).addr() == old(self).addr(),
            final(self).nwk_key() == old(self).nwk_key(),
            final(self).app_key() == old(self).app_key(),
            ({
                let enc = frm_crypt(old(frame)@, old(self).app_key(), old(self).addr(), old(self)@.fcnt_up, 0);
                let hdr = uplink_header(old(self).addr(), old(self)@.fcnt_up, old(self)@.fport);
                let mic = mic_of(hdr + enc, old(self).nwk_key(), old(self).addr(), old(self)@.fcnt_up, 0);
                &&& old(frame).head() < LORAWAN_HEADER_LEN ==> r == Err::<(), CommsError>(CommsError::BufferTooSmall)
                    && final(frame)@ == enc && final(self)@ == old(self)@
                &&& old(frame).head() >= LORAWAN_HEADER_LEN && old(frame).tail() + MIC_LEN > MAX_FRAME
                    ==> r == Err::<(), CommsError>(CommsError::BufferTooSmall) && final(frame)@ == hdr + enc
                    && final(self)@ == old(self)@
                &&& old(frame).head() >= LORAWAN_HEADER_LEN && old(frame).tail() + MIC_LEN <= MAX_FRAME
                    ==> r is Ok && final(frame)@ == hdr + enc + mic
                    && final(frame)@.len() == old(frame)@.len() + LORAWAN_HEADER_LEN + MIC_LEN
                    && final(frame).head() == old(frame).head() - LORAWAN_HEADER_LEN
                    && final(self)@ == (MacView { fcnt_up: old(self)@.fcnt_up.wrapping_add(1), ..old(self)@ })
            }),
    {
        let ghost f0 = *frame;
        proof {
            f0.lemma_wf();
        }
        let fcnt = self.fcnt_up;
        let _ = encrypt_frm_payload(frame.payload_mut(), self.app_skey.as_slice(), self.dev_addr.as_slice(), fcnt, 0);
        proof {
            frame.lemma_view();
            let enc = frm_crypt(f0@, self.app_skey@, self.dev_addr@, fcnt, 0);
            assert(frame.bytes().subrange(frame.head(), frame.tail()) =~= enc);
            frame.lemma_wf_intro();
        }
        let hdr: Vec<u8> = vec![
            0x40u8,
            self.dev_addr[0], self.dev_addr[1], self.dev_addr[2], self.dev_addr[3],
            0u8, fcnt as u8, (fcnt >> 8u32) as u8, self.fport,
        ];
        assert(hdr@ =~= uplink_header(self.dev_addr@, fcnt, self.fport));
        match frame.prepend_header(hdr.as_slice()) {
            Ok(()) => {},
            Err(e) => {
                return Err(e);
            },
        }
        let mic = match compute_mic(frame.payload(), self.nwk_skey.as_slice(), self.dev_addr.as_slice(), fcnt, 0) {
            Ok(m) => m,
            Err(e) => {
                return Err(e);
            },
        };
        match frame.append_trailer(mic.as_slice()) {
            Ok(()) => {},
            Err(e) => {
                return Err(e);
            },
        }
        self.fcnt_up = self.fcnt_up.wrapping_add(1);
        Ok(())
    }

    /// Checks and strips a downlink: drops frames shorter than
    /// [`MIN_DOWNLINK_LEN`], for another device, or with a wrong MIC; then
    /// strips the header, decrypts the payload and records the next expected
    /// downlink counter.
    fn up(&mut self, frame: &mut Frame) -> (r: Result<bool, CommsError>)
        ensures
            final(self).addr() == old(self).addr(),
            final(self).nwk_key() == old(self).nwk_key(),
            final(self).app_key() == old(self).app_key(),
            final(self)@.fcnt_up == old(self)@.fcnt_up,
            final(self)@.fport == old(self)@.fport,
            old(frame)@.len() < MIN_DOWNLINK_LEN ==> r == Ok::<bool, CommsError>(false)
                && *final(frame) == *old(frame) && final(self)@ == old(self)@,
            old(frame)@.len() >= MIN_DOWNLINK_LEN ==> ({
                let p = old(frame)@;
                let body = p.subrange(0, p.len() - MIC_LEN);
                let mic = p.subrange(p.len() - MIC_LEN, p.len() as int);
                let fcnt = header_fcnt(body);
                let ok = body.subrange(1, 5) == old(self).addr()
                    && mic == mic_of(body, old(self).nwk_key(), old(self).addr(), fcnt, 1);
                &&& r == Ok::<bool, CommsError>(ok)
                &&& !ok ==> final(frame)@ == body && final(self)@ == old(self)@
                &&& ok ==> final(frame)@ == frm_crypt(
                    body.subrange(LORAWAN_HEADER_LEN as int, body.len() as int),
                    old(self).app_key(),
                    old(self).addr(),
                    fcnt,
                    1,
                ) && final(self)@.fcnt_dn == fcnt.wrapping_add(1)
            }),
    {
        if frame.len() < MIN_DOWNLINK_LEN {
            return Ok(false);
        }
        let ghost p = frame@;
        let mic_recv = match frame.trim_trailer(MIC_LEN) {
            Ok(v) => v,
            Err(e) => {
                return Err(e);
            },
        };
        let ghost body = frame@;
        assert(body == p.subrange(0, p.len() - MIC_LEN));
        let payload = frame.payload();
        let same_addr = payload[1] == self.dev_addr[0] && payload[2] == self.dev_addr[1]
            && payload[3] == self.dev_addr[2] && payload[4] == self.dev_addr[3];
        assert(same_addr == (body.subrange(1, 5) == self.dev_addr@)) by {
            if same_addr {
                assert(body.subrange(1, 5) =~= self.dev_addr@);
            }
        }
        let fcnt = (payload[6] as u32) | ((payload[7] as u32) << 8u32);
        if !same_addr {
            return Ok(false);
        }
        let mic_calc = match compute_mic(payload, self.nwk_skey.as_slice(), self.dev_addr.as_slice(), fcnt, 1) {
            Ok(m) => m,
            Err(e) => {
                return Err(e);
            },
        };
        let same_mic = mic_recv[0] == mic_calc[0] && mic_recv[1] == mic_calc[1] && mic_recv[2]
            == mic_calc[2] && mic_recv[3] == mic_calc[3];
        assert(same_mic == (mic_recv@ == mic_calc@)) by {
            if same_mic {
                assert(mic_recv@ =~= mic_calc@);
            }
        }
        if !same_mic {
            return Ok(false);
        }
        match frame.strip_header(LORAWAN_HEADER_LEN) {
            Ok(_) => {},
            Err(e) => {
                return Err(e);
            },
        }
        let ghost f1 = *frame;
        proof {
            f1.lemma_wf();
        }
        let _ = encrypt_frm_payload(frame.payload_mut(), self.app_skey.as_slice(), self.dev_addr.as_slice(), fcnt, 1);
        proof {
            frame.lemma_view();
            let dec = frm_crypt(f1@, self.app_skey@, self.dev_addr@, fcnt, 1);
            assert(frame.bytes().subrange(frame.head(), frame.tail()) =~= dec);
            frame.lemma_wf_intro();
        }
        self.fcnt_dn = fcnt.wrapping_add(1);
        Ok(true)
    }
}

/// Law: payload encryption is its own inverse: decrypting with the same
/// key, address, counter and direction gives the plaintext back.
pub proof fn lemma_frm_crypt_involution(data: Seq<u8>, key: Seq<u8>, dev_addr: Seq<u8>, fcnt: u32, dir: u8)
    ensures
        frm_crypt(frm_crypt(data, key, dev_addr, fcnt, dir), key, dev_addr, fcnt, dir) == data,
{
    let once = frm_crypt(data, key, dev_addr, fcnt, dir);
    let twice = frm_crypt(once, key, dev_addr, fcnt, dir);
    assert forall|k: int| 0 <= k < data.len() implies twice[k] == data[k] by {
        let x = data[k];
        let y = keystream_byte(key, dev_addr, fcnt, dir, k);
        assert((x ^ y) ^ y == x) by (bit_vector);
    }
    assert(twice =~= data);
}

/// Header of a downlink addressed to `dev_addr` with counter `fcnt`.
pub open spec fn downlink_header(dev_addr: Seq<u8>, fcnt: u32, fport: u8) -> Seq<u8> {
    seq![0x60u8] + dev_addr + seq![0u8, fcnt as u8, (fcnt >> 8u32) as u8, fport]
}

/// Law: a downlink built with the session's keys for its device address (a
/// counter below 65536, the FPort, the encrypted payload and the MIC from
/// the 16-byte CMAC `tag`) is accepted by the MAC, which hands back exactly
/// the plaintext payload.
pub proof fn lemma_downlink_accepted(dev_addr: Seq<u8>, nwk_key: Seq<u8>, app_key: Seq<u8>, fcnt: u32, fport: u8, payload: Seq<u8>, tag: Seq<u8>)
    requires
        dev_addr.len() == 4,
        fcnt < 0x1_0000,
        ({
            let body = downlink_header(dev_addr, fcnt, fport) + frm_crypt(payload, app_key, dev_addr, fcnt, 1);
            tag == aes128_cmac(nwk_key, mic_b0(1, dev_addr, fcnt, body.len()) + body)
        }),
        tag.len() == 16,
    ensures
        ({
            let body = downlink_header(dev_addr, fcnt, fport) + frm_crypt(payload, app_key, dev_addr, fcnt, 1);
            let frame = body + mic_of(body, nwk_key, dev_addr, fcnt, 1);
            let p = frame;
            let b = p.subrange(0, p.len() - MIC_LEN);
            &&& p.len() >= MIN_DOWNLINK_LEN
            &&& b == body
            &&& header_fcnt(b) == fcnt
            &&& b.subrange(1, 5) == dev_addr
            &&& p.subrange(p.len() - MIC_LEN, p.len() as int) == mic_of(b, nwk_key, dev_addr, header_fcnt(b), 1)
            &&& frm_crypt(b.subrange(LORAWAN_HEADER_LEN as int, b.len() as int), app_key, dev_addr, header_fcnt(b), 1) == payload
        }),
{
    let hdr = downlink_header(dev_addr, fcnt, fport);
    let enc = frm_crypt(payload, app_key, dev_addr, fcnt, 1);
    let body = hdr + enc;
    let mic = mic_of(body, nwk_key, dev_addr, fcnt, 1);
    let p = body + mic;
    assert(mic.len() == 4);
    assert(p.subrange(0, p.len() - MIC_LEN) =~= body);
    assert(body[6] == fcnt as u8);
    assert(body[7] == (fcnt >> 8u32) as u8);
    let lo = fcnt as u8;
    let hi = (fcnt >> 8u32) as u8;
    assert((lo as u32) | ((hi as u32) << 8u32) == fcnt) by (bit_vector)
        requires
            fcnt < 0x1_0000,
            lo == fcnt as u8,
            hi == (fcnt >> 8u32) as u8,
    ;
    assert(body.subrange(1, 5) =~= dev_addr);
    assert(p.subrange(p.len() - MIC_LEN, p.len() as int) =~= mic);
    assert(body.subrange(LORAWAN_HEADER_LEN as int, body.len() as int) =~= enc);
    lemma_frm_crypt_involution(payload, app_key, dev_addr, fcnt, 1);
}

} // verus!
