//! Radio PHY interface and two host PHYs: a loopback that echoes every
//! transmission back as a reception, and a null radio that only reports
//! transmissions complete.

use vstd::prelude::*;
use std::collections::VecDeque;
use crate::comms::error::CommsError;
use crate::comms::events::{PhyEvent, RxMetadata};

verus! {

/// Operating mode of a radio.
#[derive(Debug, Clone, Copy, PartialEq, Eq, Structural)]
pub enum RadioMode {
    /// Lowest power, configuration lost.
    Sleep,
    /// Ready, neither sending nor receiving.
    Standby,
    /// Transmitting.
    Tx,
    /// Receiving, optionally for a bounded window.
    Rx { timeout_ms: Option<u32> },
}

/// Transmit configuration.
#[derive(Debug, Clone, Copy, PartialEq, Eq, Structural)]
pub struct RfTxConfig {
    /// Carrier frequency, Hz.
    pub frequency_hz: u32,
    /// Output power, dBm.
    pub tx_power_dbm: i8,
}

/// Receive configuration.
#[derive(Debug, Clone, Copy, PartialEq, Eq, Structural)]
pub struct RfRxConfig {
    /// Carrier frequency, Hz.
    pub frequency_hz: u32,
    /// Receive window, ms (`None`: continuous).
    pub timeout_ms: Option<u32>,
}

/// A control request handed to a radio, with whether it was accepted.
#[derive(Debug, Clone, Copy, PartialEq, Eq, Structural)]
pub enum PhyCtl {
    /// A receive configuration.
    RxConfig(RfRxConfig, bool),
    /// A switch of operating mode.
    Mode(RadioMode, bool),
}

/// A radio PHY driver. Only [`transmit`](RfPhy::transmit) hands frames to
/// the air.
pub trait RfPhy {
    /// The frames handed to the air so far, oldest first.
    spec fn tx_log(&self) -> Seq<Seq<u8>>;

    /// Every frame handed to [`transmit`](RfPhy::transmit), oldest first,
    /// with whether the radio accepted it.
    spec fn tx_tries(&self) -> Seq<(Seq<u8>, bool)>;

    /// Every transmit configuration handed to
    /// [`configure_tx`](RfPhy::configure_tx), oldest first, with whether the
    /// radio accepted it.
    spec fn cfg_tries(&self) -> Seq<(RfTxConfig, bool)>;

    /// Whether each call of [`read_rx`](RfPhy::read_rx) so far succeeded,
    /// oldest first.
    spec fn rx_reads(&self) -> Seq<bool>;

    /// Every receive configuration and mode switch handed to the radio,
    /// oldest first, with whether the radio accepted it.
    spec fn ctl_log(&self) -> Seq<PhyCtl>;

    /// Brings the radio up.
    fn init(&mut self) -> (r: Result<(), CommsError>)
        ensures
            final(self).tx_log() == old(self).tx_log(),
            final(self).tx_tries() == old(self).tx_tries(),
            final(self).cfg_tries() == old(self).cfg_tries(),
            final(self).rx_reads() == old(self).rx_reads(),
            final(self).ctl_log() == old(self).ctl_log(),
    ;

    /// Switches the operating mode.
    fn set_mode(&mut self, mode: RadioMode) -> (r: Result<(), CommsError>)
        ensures
            final(self).tx_log() == old(self).tx_log(),
            final(self).tx_tries() == old(self).tx_tries(),
            final(self).cfg_tries() == old(self).cfg_tries(),
            final(self).rx_reads() == old(self).rx_reads(),
            final(self).ctl_log() == old(self).ctl_log().push(PhyCtl::Mode(mode, r is Ok)),
    ;

    /// Applies a transmit configuration.
    fn configure_tx(&mut self, cfg: &RfTxConfig) -> (r: Result<(), CommsError>)
        ensures
            final(self).tx_log() == old(self).tx_log(),
            final(self).tx_tries() == old(self).tx_tries(),
            final(self).cfg_tries() == old(self).cfg_tries().push((*cfg, r is Ok)),
            final(self).rx_reads() == old(self).rx_reads(),
            final(self).ctl_log() == old(self).ctl_log(),
    ;

    /// Applies a receive configuration.
    fn configure_rx(&mut self, cfg: &RfRxConfig) -> (r: Result<(), CommsError>)
        ensures
            final(self).tx_log() == old(self).tx_log(),
            final(self).tx_tries() == old(self).tx_tries(),
            final(self).cfg_tries() == old(self).cfg_tries(),
            final(self).rx_reads() == old(self).rx_reads(),
            final(self).ctl_log() == old(self).ctl_log().push(PhyCtl::RxConfig(*cfg, r is Ok)),
    ;

    /// Sends `payload` on air (returns once handed to the radio); a failed
    /// transmission hands nothing over.
    fn transmit(&mut self, payload: &[u8]) -> (r: Result<(), CommsError>)
        ensures
            final(self).tx_log() == (if r is Ok { old(self).tx_log().push(payload@) } else { old(self).tx_log() }),
            final(self).tx_tries() == old(self).tx_tries().push((payload@, r is Ok)),
            final(self).cfg_tries() == old(self).cfg_tries(),
            final(self).rx_reads() == old(self).rx_reads(),
            final(self).ctl_log() == old(self).ctl_log(),
    ;

    /// Copies the last received packet into `buf`, which keeps its length.
    fn read_rx(&mut self, buf: &mut [u8], meta: &RxMetadata) -> (r: Result<(), CommsError>)
        ensures
            final(buf)@.len() == old(buf)@.len(),
            final(self).tx_log() == old(self).tx_log(),
            final(self).tx_tries() == old(self).tx_tries(),
            final(self).cfg_tries() == old(self).cfg_tries(),
            final(self).rx_reads() == old(self).rx_reads().push(r is Ok),
            final(self).ctl_log() == old(self).ctl_log(),
    ;

    /// Reports the next pending interrupt cause, if any.
    fn poll_irq(&mut self) -> (r: Result<Option<PhyEvent>, CommsError>)
        ensures
            final(self).tx_log() == old(self).tx_log(),
            final(self).tx_tries() == old(self).tx_tries(),
            final(self).cfg_tries() == old(self).cfg_tries(),
            final(self).rx_reads() == old(self).rx_reads(),
            final(self).ctl_log() == old(self).ctl_log(),
    ;

    /// Acknowledges pending interrupts.
    fn clear_irq(&mut self) -> (r: Result<(), CommsError>)
        ensures
            final(self).tx_log() == old(self).tx_log(),
            final(self).tx_tries() == old(self).tx_tries(),
            final(self).cfg_tries() == old(self).cfg_tries(),
            final(self).rx_reads() == old(self).rx_reads(),
            final(self).ctl_log() == old(self).ctl_log(),
    ;

    /// Current received signal strength, dBm.
    fn rssi(&mut self) -> (r: Result<i16, CommsError>)
        ensures
            final(self).tx_log() == old(self).tx_log(),
            final(self).tx_tries() == old(self).tx_tries(),
            final(self).cfg_tries() == old(self).cfg_tries(),
            final(self).rx_reads() == old(self).rx_reads(),
            final(self).ctl_log() == old(self).ctl_log(),
    ;

    /// Name of the radio chip.
    fn chip_name(&self) -> (s: &'static str);
}

/// Copies `bytes` into a new vector.
pub fn copy_bytes(bytes: &[u8]) -> (v: Vec<u8>)
    ensures
        v@ == bytes@,
{
    let mut v: Vec<u8> = Vec::new();
    let n = bytes.len();
    let mut i: usize = 0;
    while i < n
        invariant
            n == bytes@.len(),
            i <= n,
            v@ == bytes@.subrange(0, i as int),
        decreases n - i,
    {
        v.push(bytes[i]);
        i = i + 1;
        assert(v@ =~= bytes@.subrange(0, i as int));
    }
    v
}

/// Host PHY that echoes every transmission back as a reception.
pub struct LoopbackPhy {
    rx_queue: VecDeque<(Vec<u8>, RxMetadata)>,
    pending_rx: Option<Vec<u8>>,
    sent: Ghost<Seq<Seq<u8>>>,
    tries: Ghost<Seq<(Seq<u8>, bool)>>,
    cfgs: Ghost<Seq<(RfTxConfig, bool)>>,
    reads: Ghost<Seq<bool>>,
    ctls: Ghost<Seq<PhyCtl>>,
}

impl LoopbackPhy {
    /// Frames waiting to be reported as received, oldest first.
    pub closed spec fn queued(&self) -> Seq<Seq<u8>> {
        self.rx_queue@.map_values(|e: (Vec<u8>, RxMetadata)| e.0@)
    }

    /// The frame reported by the last reception, until read.
    pub closed spec fn pending(&self) -> Option<Seq<u8>> {
        match self.pending_rx {
            Some(v) => Some(v@),
            None => None,
        }
    }

    /// A loopback with nothing queued.
    pub fn new() -> (p: LoopbackPhy)
        ensures
            p.queued() == Seq::<Seq<u8>>::empty(),
            p.pending() is None,
            p.tx_log() == Seq::<Seq<u8>>::empty(),
    {
        let p = LoopbackPhy {
            rx_queue: VecDeque::new(),
            pending_rx: None,
            sent: Ghost(Seq::empty()),
            tries: Ghost(Seq::empty()),
            cfgs: Ghost(Seq::empty()),
            reads: Ghost(Seq::empty()),
            ctls: Ghost(Seq::empty()),
        };
        assert(p.queued() =~= Seq::<Seq<u8>>::empty());
        p
    }

    /// Queues `bytes` as if received over the air.
    pub fn inject(&mut self, bytes: &[u8])
        ensures
            final(self).queued() == old(self).queued().push(bytes@),
            final(self).pending() == old(self).pending(),
            final(self).tx_log() == old(self).tx_log(),
            final(self).tx_tries() == old(self).tx_tries(),
            final(self).cfg_tries() == old(self).cfg_tries(),
            final(self).rx_reads() == old(self).rx_reads(),
            final(self).ctl_log() == old(self).ctl_log(),
    {
        let frame = copy_bytes(bytes);
        self.rx_queue.push_back((frame, RxMetadata { pkt_len: 0, rssi_dbm: 0, snr_db_x10: 0 }));
        assert(self.queued() =~= old(self).queued().push(bytes@));
    }
}

impl RfPhy for LoopbackPhy {
    closed spec fn tx_log(&self) -> Seq<Seq<u8>> {
        self.sent@
    }

    closed spec fn tx_tries(&self) -> Seq<(Seq<u8>, bool)> {
        self.tries@
    }

    closed spec fn cfg_tries(&self) -> Seq<(RfTxConfig, bool)> {
        self.cfgs@
    }

    closed spec fn rx_reads(&self) -> Seq<bool> {
        self.reads@
    }

    closed spec fn ctl_log(&self) -> Seq<PhyCtl> {
        self.ctls@
    }

    fn init(&mut self) -> (r: Result<(), CommsError>)
        ensures
            r is Ok,
    {
        Ok(())
    }

    fn set_mode(&mut self, mode: RadioMode) -> (r: Result<(), CommsError>)
        ensures
            r is Ok,
    {
        self.ctls = Ghost(self.ctls@.push(PhyCtl::Mode(mode, true)));
        Ok(())
    }

    fn configure_tx(&mut self, cfg: &RfTxConfig) -> (r: Result<(), CommsError>)
        ensures
            r is Ok,
    {
        self.cfgs = Ghost(self.cfgs@.push((*cfg, true)));
        Ok(())
    }

    fn configure_rx(&mut self, cfg: &RfRxConfig) -> (r: Result<(), CommsError>)
        ensures
            r is Ok,
    {
        self.ctls = Ghost(self.ctls@.push(PhyCtl::RxConfig(*cfg, true)));
        Ok(())
    }

    /// Echoes the transmission into the reception queue.
    fn transmit(&mut self, payload: &[u8]) -> (r: Result<(), CommsError>)
        ensures
            r is Ok,
            final(self).queued() == old(self).queued().push(payload@),
            final(self).pending() == old(self).pending(),
    {
        self.inject(payload);
        self.sent = Ghost(self.sent@.push(payload@));
        self.tries = Ghost(self.tries@.push((payload@, true)));
        Ok(())
    }

    /// Copies the pending frame (as much as fits) into `buf` and forgets it.
    fn read_rx(&mut self, buf: &mut [u8], meta: &RxMetadata) -> (r: Result<(), CommsError>)
        ensures
            r is Ok,
            final(buf)@.len() == old(buf)@.len(),
            final(self).queued() == old(self).queued(),
            final(self).pending() is None,
            old(self).pending() matches Some(f) ==> forall|k: int|
                0 <= k < old(buf)@.len() ==> #[trigger] final(buf)@[k] == if k < f.len() {
                    f[k]
                } else {
                    old(buf)@[k]
                },
            old(self).pending() is None ==> final(buf)@ == old(buf)@,
    {
        match self.pending_rx.take() {
            Some(bytes) => {
                let n = if bytes.len() < buf.len() { bytes.len() } else { buf.len() };
                let mut k: usize = 0;
                while k < n
                    invariant
                        n <= bytes@.len(),
                        n <= buf@.len(),
                        buf@.len() == old(buf)@.len(),
                        k <= n,
                        forall|j: int| 0 <= j < k ==> #[trigger] buf@[j] == bytes@[j],
                        forall|j: int| k <= j < buf@.len() ==> #[trigger] buf@[j] == old(buf)@[j],
                    decreases n - k,
                {
                    buf[k] = bytes[k];
                    k = k + 1;
                }
            },
            None => {},
        }
        self.reads = Ghost(self.reads@.push(true));
        Ok(())
    }

    /// Reports the oldest queued frame as received and makes it pending.
    fn poll_irq(&mut self) -> (r: Result<Option<PhyEvent>, CommsError>)
        ensures
            old(self).queued().len() == 0 ==> r == Ok::<Option<PhyEvent>, CommsError>(None)
                && final(self).queued() == old(self).queued() && final(self).pending() == old(self).pending(),
            old(self).queued().len() > 0 ==> ({
                let f = old(self).queued()[0];
                &&& r matches Ok(Some(PhyEvent::RxDone(m))) && m.pkt_len == f.len() as u8
                &&& final(self).queued() == old(self).queued().drop_first()
                &&& final(self).pending() == Some(f)
            }),
    {
        match self.rx_queue.pop_front() {
            Some((bytes, meta)) => {
                let m = RxMetadata { pkt_len: bytes.len() as u8, rssi_dbm: meta.rssi_dbm, snr_db_x10: meta.snr_db_x10 };
                self.pending_rx = Some(bytes);
                assert(self.queued() =~= old(self).queued().drop_first());
                Ok(Some(PhyEvent::RxDone(m)))
            },
            None => Ok(None),
        }
    }

    fn clear_irq(&mut self) -> (r: Result<(), CommsError>)
        ensures
            r is Ok,
    {
        Ok(())
    }

    fn rssi(&mut self) -> (r: Result<i16, CommsError>)
        ensures
            r == Ok::<i16, CommsError>(-50i16),
    {
        Ok(-50)
    }

    fn chip_name(&self) -> (s: &'static str)
        ensures
            s@ == "Loopback"@,
    {
        proof {
            reveal_strlit("Loopback");
        }
        "Loopback"
    }
}

/// Host PHY without a radio: a transmission is reported complete on the
/// next poll.
pub struct NullRf {
    tx_done_pending: bool,
    sent: Ghost<Seq<Seq<u8>>>,
    tries: Ghost<Seq<(Seq<u8>, bool)>>,
    cfgs: Ghost<Seq<(RfTxConfig, bool)>>,
    reads: Ghost<Seq<bool>>,
    ctls: Ghost<Seq<PhyCtl>>,
}

impl NullRf {
    /// Whether a completed transmission awaits reporting.
    pub closed spec fn tx_pending(&self) -> bool {
        self.tx_done_pending
    }

    /// A null radio with nothing to report.
    pub fn new() -> (p: NullRf)
        ensures
            !p.tx_pending(),
            p.tx_log() == Seq::<Seq<u8>>::empty(),
    {
        NullRf {
            tx_done_pending: false,
            sent: Ghost(Seq::empty()),
            tries: Ghost(Seq::empty()),
            cfgs: Ghost(Seq::empty()),
            reads: Ghost(Seq::empty()),
            ctls: Ghost(Seq::empty()),
        }
    }
}

impl Default for NullRf {
    fn default() -> (p: NullRf)
        ensures
            !p.tx_pending(),
            p.tx_log() == Seq::<Seq<u8>>::empty(),
    {
        NullRf::new()
    }
}

impl RfPhy for NullRf {
    closed spec fn tx_log(&self) -> Seq<Seq<u8>> {
        self.sent@
    }

    closed spec fn tx_tries(&self) -> Seq<(Seq<u8>, bool)> {
        self.tries@
    }

    closed spec fn cfg_tries(&self) -> Seq<(RfTxConfig, bool)> {
        self.cfgs@
    }

    closed spec fn rx_reads(&self) -> Seq<bool> {
        self.reads@
    }

    closed spec fn ctl_log(&self) -> Seq<PhyCtl> {
        self.ctls@
    }

    fn init(&mut self) -> (r: Result<(), CommsError>)
        ensures
            r is Ok,
    {
        Ok(())
    }

    fn set_mode(&mut self, mode: RadioMode) -> (r: Result<(), CommsError>)
        ensures
            r is Ok,
    {
        self.ctls = Ghost(self.ctls@.push(PhyCtl::Mode(mode, true)));
        Ok(())
    }

    fn configure_tx(&mut self, cfg: &RfTxConfig) -> (r: Result<(), CommsError>)
        ensures
            r is Ok,
    {
        self.cfgs = Ghost(self.cfgs@.push((*cfg, true)));
        Ok(())
    }

    fn configure_rx(&mut self, cfg: &RfRxConfig) -> (r: Result<(), CommsError>)
        ensures
            r is Ok,
    {
        self.ctls = Ghost(self.ctls@.push(PhyCtl::RxConfig(*cfg, true)));
        Ok(())
    }

    /// Accepts the transmission; its completion is reported on the next poll.
    fn transmit(&mut self, payload: &[u8]) -> (r: Result<(), CommsError>)
        ensures
            r is Ok,
            final(self).tx_pending(),
    {
        self.tx_done_pending = true;
        self.sent = Ghost(self.sent@.push(payload@));
        self.tries = Ghost(self.tries@.push((payload@, true)));
        Ok(())
    }

    fn read_rx(&mut self, buf: &mut [u8], meta: &RxMetadata) -> (r: Result<(), CommsError>)
        ensures
            r is Ok,
            final(buf)@ == old(buf)@,
    {
        self.reads = Ghost(self.reads@.push(true));
        Ok(())
    }

    /// Reports a completed transmission once.
    fn poll_irq(&mut self) -> (r: Result<Option<PhyEvent>, CommsError>)
        ensures
            !final(self).tx_pending(),
            r == Ok::<Option<PhyEvent>, CommsError>(
                if old(self).tx_pending() { Some(PhyEvent::TxDone) } else { None },
            ),
    {
        if self.tx_done_pending {
            self.tx_done_pending = false;
            Ok(Some(PhyEvent::TxDone))
        } else {
            Ok(None)
        }
    }

    fn clear_irq(&mut self) -> (r: Result<(), CommsError>)
        ensures
            r is Ok,
    {
        Ok(())
    }

    fn rssi(&mut self) -> (r: Result<i16, CommsError>)
        ensures
            r == Ok::<i16, CommsError>(-50i16),
    {
        Ok(-50)
    }

    fn chip_name(&self) -> (s: &'static str)
        ensures
            s@ == "NullRf"@,
    {
        proof {
            reveal_strlit("NullRf");
        }
        "NullRf"
    }
}

} // verus!
