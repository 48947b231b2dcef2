//! Timer wheel of the preemptive kernel: time events grouped by tick rate,
//! each expiry posted and run to completion at once.

use vstd::prelude::*;
use crate::qf::active::ActiveBehavior;
use crate::qf::time::{tick_step, TimeEvent};
use crate::qk::kernel::{QkKernel, QkKernelError};

verus! {

/// Tick rates a new wheel provides.
pub const DEFAULT_TICK_RATES: usize = 4;

/// Errors of ticking a [`QkTimerWheel`].
#[derive(Debug, Clone, Copy, PartialEq, Eq, Structural)]
pub enum QkTimeEventError {
    /// The kernel refused to post an expired time event.
    Kernel(QkKernelError),
}

/// Time events grouped by tick rate.
pub struct QkTimerWheel {
    events: Vec<Vec<TimeEvent>>,
}

impl QkTimerWheel {
    /// The time events of each tick rate.
    pub closed spec fn rates(&self) -> Seq<Seq<TimeEvent>> {
        self.events@.map_values(|v: Vec<TimeEvent>| v@)
    }

    /// A wheel with [`DEFAULT_TICK_RATES`] empty rates.
    pub fn new() -> (w: QkTimerWheel)
        ensures
            w.rates().len() == DEFAULT_TICK_RATES,
            forall|r: int| 0 <= r < DEFAULT_TICK_RATES ==> #[trigger] w.rates()[r] == Seq::<TimeEvent>::empty(),
    {
        let mut events: Vec<Vec<TimeEvent>> = Vec::new();
        let mut k: usize = 0;
        while k < DEFAULT_TICK_RATES
            invariant
                k <= DEFAULT_TICK_RATES,
                events@.len() == k,
                forall|r: int| 0 <= r < k ==> #[trigger] events@[r]@ == Seq::<TimeEvent>::empty(),
            decreases DEFAULT_TICK_RATES - k,
        {
            events.push(Vec::new());
            k += 1;
        }
        QkTimerWheel { events }
    }

    /// Registers a time event under its tick rate, adding rates as needed.
    pub fn register(&mut self, event: TimeEvent)
        ensures
            final(self).rates().len() == if old(self).rates().len() > event.rate_of() {
                old(self).rates().len()
            } else {
                (event.rate_of() + 1) as nat
            },
            final(self).rates()[event.rate_of() as int] == (if event.rate_of() < old(self).rates().len() {
                old(self).rates()[event.rate_of() as int]
            } else {
                Seq::<TimeEvent>::empty()
            }).push(event),
            forall|r: int| 0 <= r < old(self).rates().len() && r != event.rate_of() ==> #[trigger] final(self).rates()[r] == old(self).rates()[r],
    {
        let rate = event.tick_rate() as usize;
        while self.events.len() <= rate
            invariant
                self.events@.len() >= old(self).events@.len(),
                forall|r: int| 0 <= r < old(self).events@.len() ==> #[trigger] self.events@[r] == old(self).events@[r],
                forall|r: int| old(self).events@.len() <= r < self.events@.len() ==> #[trigger] self.events@[r]@ == Seq::<TimeEvent>::empty(),
                self.events@.len() <= if old(self).events@.len() > rate { old(self).events@.len() } else { (rate + 1) as nat },
            decreases rate + 1 - self.events@.len(),
        {
            self.events.push(Vec::new());
        }
        let ghost before = self.events@;
        let mut group = self.events.remove(rate);
        group.push(event);
        self.events.insert(rate, group);
        proof {
            assert(self.events@ =~= before.update(rate as int, group));
            assert(self.rates().len() == self.events@.len());
        }
    }

    /// Whether no time event of `tick_rate` is armed.
    pub fn no_active(&self, tick_rate: u8) -> (b: bool)
        ensures
            b == (tick_rate >= self.rates().len() || forall|i: int|
                0 <= i < self.rates()[tick_rate as int].len() ==> !(#[trigger] self.rates()[tick_rate as int][i]).state().armed),
    {
        let rate = tick_rate as usize;
        if rate >= self.events.len() {
            return true;
        }
        let group = &self.events[rate];
        assert(self.rates()[rate as int] == group@);
        let mut i: usize = 0;
        while i < group.len()
            invariant
                rate == tick_rate as usize,
                rate < self.events@.len(),
                *group == self.events@[rate as int],
                self.rates()[rate as int] == group@,
                i <= group@.len(),
                forall|j: int| 0 <= j < i ==> !(#[trigger] group@[j]).state().armed,
            decreases group@.len() - i,
        {
            if group[i].is_armed() {
                assert(self.rates()[tick_rate as int][i as int].state().armed);
                return false;
            }
            i += 1;
        }
        true
    }

    /// Ticks the time events of `tick_rate` once, in registration order,
    /// posting each expiry and running the kernel until idle. Stops at the
    /// first expiry the kernel refuses.
    pub fn tick_rate<B: ActiveBehavior>(&mut self, kernel: &mut QkKernel<B>, tick_rate: u8) -> (r: Result<(), QkTimeEventError>)
        requires
            old(kernel).wf(),
            old(kernel).active_registered(),
        ensures
            final(kernel).wf(),
            final(kernel).active_registered(),
            final(self).rates().len() == old(self).rates().len(),
            tick_rate as int >= old(self).rates().len() ==> r is Ok && final(self).rates() == old(self).rates(),
            forall|q: int| 0 <= q < old(self).rates().len() && q != tick_rate ==> #[trigger] final(self).rates()[q] == old(self).rates()[q],
            r is Ok && (tick_rate as int) < old(self).rates().len() ==> forall|i: int|
                0 <= i < old(self).rates()[tick_rate as int].len() ==> (#[trigger] final(self).rates()[tick_rate as int][i]).state()
                    == tick_step(old(self).rates()[tick_rate as int][i].state()).0,
    {
        let rate = tick_rate as usize;
        if rate >= self.events.len() {
            return Ok(());
        }
        let ghost before = self.events@;
        let mut group = self.events.remove(rate);
        let n = group.len();
        let mut i: usize = 0;
        assert(group == before[rate as int]);
        while i < n
            invariant
                kernel.wf(),
                kernel.active_registered(),
                before == old(self).events@,
                rate == tick_rate as usize,
                rate < before.len(),
                self.events@ == before.remove(rate as int),
                n == group@.len(),
                n == before[rate as int]@.len(),
                i <= n,
                forall|j: int| 0 <= j < i ==> (#[trigger] group@[j]).state() == tick_step(before[rate as int]@[j].state()).0,
                forall|j: int| i <= j < n ==> #[trigger] group@[j] == before[rate as int]@[j],
            decreases n - i,
        {
            let ghost g0 = group@;
            let mut t = group.remove(i);
            let polled = t.poll();
            group.insert(i, t);
            assert(group@ =~= g0.update(i as int, t));
            match polled {
                Some((target, event)) => {
                    match kernel.post_and_run(target, event) {
                        Ok(()) => {},
                        Err(e) => {
                            self.events.insert(rate, group);
                            proof {
                                assert(self.events@ =~= before.update(rate as int, group));
                                assert(self.rates() =~= old(self).rates().update(rate as int, group@));
                            }
                            return Err(QkTimeEventError::Kernel(e));
                        },
                    }
                },
                None => {},
            }
            i += 1;
        }
        self.events.insert(rate, group);
        proof {
            assert(self.events@ =~= before.update(rate as int, group));
            assert(self.rates() =~= old(self).rates().update(rate as int, group@));
        }
        Ok(())
    }

    /// Ticks rate 0.
    pub fn tick<B: ActiveBehavior>(&mut self, kernel: &mut QkKernel<B>) -> (r: Result<(), QkTimeEventError>)
        requires
            old(kernel).wf(),
            old(kernel).active_registered(),
        ensures
            final(kernel).wf(),
            final(kernel).active_registered(),
            final(self).rates().len() == old(self).rates().len(),
            0 >= old(self).rates().len() ==> r is Ok && final(self).rates() == old(self).rates(),
            forall|q: int| 0 <= q < old(self).rates().len() && q != 0 ==> #[trigger] final(self).rates()[q] == old(self).rates()[q],
            r is Ok && 0 < old(self).rates().len() ==> forall|i: int|
                0 <= i < old(self).rates()[0].len() ==> (#[trigger] final(self).rates()[0][i]).state()
                    == tick_step(old(self).rates()[0][i].state()).0,
    {
        self.tick_rate(kernel, 0)
    }

    /// [`QkTimerWheel::tick_rate`] from interrupt context.
    pub fn tick_rate_from_isr<B: ActiveBehavior>(&mut self, kernel: &mut QkKernel<B>, tick_rate: u8) -> (r: Result<(), QkTimeEventError>)
        requires
            old(kernel).wf(),
            old(kernel).active_registered(),
        ensures
            final(kernel).wf(),
            final(kernel).active_registered(),
            final(self).rates().len() == old(self).rates().len(),
            tick_rate as int >= old(self).rates().len() ==> r is Ok && final(self).rates() == old(self).rates(),
            forall|q: int| 0 <= q < old(self).rates().len() && q != tick_rate as int ==> #[trigger] final(self).rates()[q] == old(self).rates()[q],
            r is Ok && (tick_rate as int) < old(self).rates().len() ==> forall|i: int|
                0 <= i < old(self).rates()[tick_rate as int].len() ==> (#[trigger] final(self).rates()[tick_rate as int][i]).state()
                    == tick_step(old(self).rates()[tick_rate as int][i].state()).0,
    {
        self.tick_rate(kernel, tick_rate)
    }

    /// [`QkTimerWheel::tick`] from interrupt context.
    pub fn tick_from_isr<B: ActiveBehavior>(&mut self, kernel: &mut QkKernel<B>) -> (r: Result<(), QkTimeEventError>)
        requires
            old(kernel).wf(),
            old(kernel).active_registered(),
        ensures
            final(kernel).wf(),
            final(kernel).active_registered(),
            final(self).rates().len() == old(self).rates().len(),
            0 >= old(self).rates().len() ==> r is Ok && final(self).rates() == old(self).rates(),
            forall|q: int| 0 <= q < old(self).rates().len() && q != 0 ==> #[trigger] final(self).rates()[q] == old(self).rates()[q],
            r is Ok && 0 < old(self).rates().len() ==> forall|i: int|
                0 <= i < old(self).rates()[0].len() ==> (#[trigger] final(self).rates()[0][i]).state()
                    == tick_step(old(self).rates()[0][i].state()).0,
    {
        self.tick_rate(kernel, 0)
    }
}

} // verus!
