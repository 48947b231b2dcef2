//! The blinky demo state machine: two states, ON and OFF, toggled by a
//! timeout signal; each toggle drives the LED to the new level. The board
//! performs the LED output and the delay between timeouts.

use vstd::prelude::*;
use crate::qf::event::DynEvent;
use crate::qf::hsm::{QHsmResult, StateHandlers, StateId, TOP_STATE};

verus! {

/// The blinky timeout signal value (the first application signal; the
/// values below it are the framework's own).
pub const BLINKY_TIMEOUT_SIG: u16 = 4;

/// The initial pseudo-state.
pub const BLINKY_INITIAL: StateId = 1;
/// LED on.
pub const BLINKY_ON: StateId = 2;
/// LED off.
pub const BLINKY_OFF: StateId = 3;

/// LED level requested by the state machine.
#[derive(Debug, Clone, Copy, PartialEq, Eq, Structural)]
pub enum LedLevel {
    /// Drive the LED pin low.
    Low,
    /// Drive the LED pin high.
    High,
}

/// What the blinky state `state` answers to a signal, and the LED level it
/// requests on the way.
pub open spec fn blinky_step(state: StateId, sig: u16) -> (QHsmResult, Option<LedLevel>) {
    if state == BLINKY_INITIAL {
        (QHsmResult::Tran(BLINKY_ON), None)
    } else if state == BLINKY_ON && sig == BLINKY_TIMEOUT_SIG {
        (QHsmResult::Tran(BLINKY_OFF), Some(LedLevel::Low))
    } else if state == BLINKY_OFF && sig == BLINKY_TIMEOUT_SIG {
        (QHsmResult::Tran(BLINKY_ON), Some(LedLevel::High))
    } else if state == BLINKY_ON || state == BLINKY_OFF {
        (QHsmResult::Super(TOP_STATE), None)
    } else {
        (QHsmResult::Handled, None)
    }
}

/// The blinky application data: the LED levels requested and not yet
/// driven by the board.
pub struct Blinky {
    led: Vec<LedLevel>,
}

impl Blinky {
    /// Requested LED levels, oldest first.
    pub closed spec fn requests(&self) -> Seq<LedLevel> {
        self.led@
    }

    /// A blinky with no request pending.
    pub fn new() -> (b: Blinky)
        ensures
            b.requests() == Seq::<LedLevel>::empty(),
    {
        Blinky { led: Vec::new() }
    }

    /// Hands out (and forgets) the requested LED levels, for the board to
    /// drive.
    pub fn take_led_requests(&mut self) -> (r: Vec<LedLevel>)
        ensures
            r@ == old(self).requests(),
            final(self).requests() == Seq::<LedLevel>::empty(),
    {
        let mut r = Vec::new();
        std::mem::swap(&mut r, &mut self.led);
        r
    }
}

impl StateHandlers for Blinky {
    fn handle(&mut self, state: StateId, event: &DynEvent) -> (r: QHsmResult)
        ensures
            r == blinky_step(state, event.header.signal@).0,
            final(self).requests() == (match blinky_step(state, event.header.signal@).1 {
                Some(level) => old(self).requests().push(level),
                None => old(self).requests(),
            }),
    {
        let sig = event.header.signal.raw();
        if state == BLINKY_INITIAL {
            QHsmResult::Tran(BLINKY_ON)
        } else if state == BLINKY_ON && sig == BLINKY_TIMEOUT_SIG {
            self.led.push(LedLevel::Low);
            QHsmResult::Tran(BLINKY_OFF)
        } else if state == BLINKY_OFF && sig == BLINKY_TIMEOUT_SIG {
            self.led.push(LedLevel::High);
            QHsmResult::Tran(BLINKY_ON)
        } else if state == BLINKY_ON || state == BLINKY_OFF {
            QHsmResult::Super(TOP_STATE)
        } else {
            QHsmResult::Handled
        }
    }
}

/// Law: two timeouts in a row bring either blinky state back to itself,
/// having requested the LED low and high (in the order of the states left).
pub proof fn lemma_two_timeouts_return(state: StateId)
    requires
        state == BLINKY_ON || state == BLINKY_OFF,
    ensures
        ({
            let (r1, l1) = blinky_step(state, BLINKY_TIMEOUT_SIG);
            let next = r1->Tran_0;
            let (r2, l2) = blinky_step(next, BLINKY_TIMEOUT_SIG);
            &&& r1 is Tran
            &&& r2 == QHsmResult::Tran(state)
            &&& l1 is Some && l2 is Some && l1 != l2
        }),
{
}

} // verus!
