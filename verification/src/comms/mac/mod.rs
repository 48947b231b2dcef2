//! MAC layers, and the active object driving a LoRaWAN radio directly.
pub mod noop;
pub mod ble_l2cap;
pub mod lorawan;

use vstd::prelude::*;
use crate::comms::events::RF_TX_REQ_SIG_VAL;
use crate::comms::lora::{lora_uplink, LoRaRf, MAX_UPLINK_PAYLOAD};
use crate::comms::stack::phy_sent;
use crate::comms::phy::RfPhy;
use crate::qf::active::{ActiveBehavior, ActiveContext};
use crate::qf::event::{DynEvent, Payload};

verus! {

/// Active object owning a [`LoRaRf`]: once the radio is up, each transmit
/// request is sent on its FPort.
pub struct CommsAO<D: RfPhy> {
    rf: LoRaRf<D>,
    initialized: bool,
}

impl<D: RfPhy> CommsAO<D> {
    /// Whether the radio came up.
    pub closed spec fn ready(&self) -> bool {
        self.initialized
    }

    /// An active object over `rf`, radio not yet up.
    pub fn new(rf: LoRaRf<D>) -> (a: CommsAO<D>)
        ensures
            !a.ready(),
    {
        CommsAO { rf, initialized: false }
    }

    /// Whether the radio came up.
    pub fn is_initialized(&self) -> (b: bool)
        ensures
            b == self.ready(),
    {
        self.initialized
    }

    /// The radio.
    pub closed spec fn radio(&self) -> LoRaRf<D> {
        self.rf
    }

    /// The radio.
    pub fn rf(&self) -> (r: &LoRaRf<D>)
        ensures
            *r == self.radio(),
    {
        &self.rf
    }
}

impl<D: RfPhy> ActiveBehavior for CommsAO<D> {
    /// Brings the radio up; requests are served only if that succeeded.
    fn on_start(&mut self, ctx: &mut ActiveContext)
        ensures
            old(self).start_spec(*old(ctx), *final(self), *final(ctx)),
    {
        match self.rf.init() {
            Ok(()) => {
                self.initialized = true;
            },
            Err(_) => {},
        }
    }

    /// What starting does, relating the object and its context before and after.
    open spec fn start_spec(self, ctx: ActiveContext, after: Self, ctx_after: ActiveContext) -> bool {
        &&& after.radio().sess() == self.radio().sess()
        &&& after.radio().air() == self.radio().air()
        &&& self.ready() ==> after.ready()
    }

    /// Sends each transmit request on its FPort (dropped while the radio
    /// is down).
    fn on_event(&mut self, ctx: &mut ActiveContext, event: DynEvent)
        ensures
            old(self).event_spec(*old(ctx), event, *final(self), *final(ctx)),
    {
        if event.signal().raw() == RF_TX_REQ_SIG_VAL {
            if !self.initialized {
                return;
            }
            match &*event.payload {
                Payload::TxReq(req) => {
                    let _ = self.rf.send_with_fport(req.data.as_slice(), req.fport);
                },
                _ => {},
            }
        }
    }

    /// What handling `event` does, relating the object and its context before and after.
    open spec fn event_spec(self, ctx: ActiveContext, event: DynEvent, after: Self, ctx_after: ActiveContext) -> bool {
        &&& after.ready() == self.ready()
        &&& ({
            let sends = self.ready() && event.header.signal@ == RF_TX_REQ_SIG_VAL && *event.payload is TxReq;
            &&& !sends ==> after.radio().air() == self.radio().air()
                && after.radio().sess() == self.radio().sess()
            &&& sends ==> ({
                let req = (*event.payload)->TxReq_0;
                ||| after.radio().air() == self.radio().air()
                    && after.radio().sess() == self.radio().sess()
                ||| after.radio().air() == self.radio().air().push(
                    lora_uplink(self.radio().sess(), req.fport, self.radio().tx_seq(), req.data@),
                )
            })
            &&& sends && (*event.payload)->TxReq_0.data@.len() <= MAX_UPLINK_PAYLOAD ==> exists|ok: bool| phy_sent(
                self.radio().radio_phy(),
                after.radio().radio_phy(),
                self.radio().txc(),
                lora_uplink(self.radio().sess(), (*event.payload)->TxReq_0.fport, self.radio().tx_seq(), (*event.payload)->TxReq_0.data@),
                ok,
            )
        })
    }
}

} // verus!
