//! Time events: one-shot and periodic timeouts counted in ticks.

use vstd::prelude::*;
use crate::qf::active::{ActiveBehavior, ActiveObjectId};
use crate::qf::event::{DynEvent, Event, Payload, Signal};
use crate::qf::kernel::{deliver, ids_of, prios_of, queues_of, slot_of, KernelError, QvKernel};

verus! {

/// What a time event posts and how it repeats.
#[derive(Debug, Clone, Copy, PartialEq, Eq, Structural)]
pub struct TimeEventConfig {
    /// Signal posted on expiry.
    pub signal: Signal,
    /// Re-arm interval in ticks for periodic events; `None` for one-shot.
    pub interval_ticks: Option<u64>,
    /// Tick-rate domain the event belongs to.
    pub tick_rate: u8,
}

impl TimeEventConfig {
    /// A one-shot configuration posting `signal`, in tick-rate domain 0.
    pub fn new(signal: Signal) -> (c: TimeEventConfig)
        ensures
            c.signal == signal,
            c.interval_ticks.is_none(),
            c.tick_rate == 0,
    {
        TimeEventConfig { signal, interval_ticks: None, tick_rate: 0 }
    }

    /// The configuration made periodic with the given interval.
    pub fn with_period(self, interval: u64) -> (c: TimeEventConfig)
        ensures
            c.signal == self.signal,
            c.interval_ticks == Some(interval),
            c.tick_rate == self.tick_rate,
    {
        let mut c = self;
        c.interval_ticks = Some(interval);
        c
    }

    /// The configuration moved to another tick-rate domain.
    pub fn with_tick_rate(self, tick_rate: u8) -> (c: TimeEventConfig)
        ensures
            c.signal == self.signal,
            c.interval_ticks == self.interval_ticks,
            c.tick_rate == tick_rate,
    {
        let mut c = self;
        c.tick_rate = tick_rate;
        c
    }
}

/// Addresses and tick rate identifying a time event in traces.
#[derive(Debug, Clone, Copy, PartialEq, Eq, Structural)]
pub struct TimeEventTraceInfo {
    /// Address identifying the time event.
    pub time_event_addr: u64,
    /// Address identifying the target active object.
    pub target_addr: u64,
    /// Tick-rate domain.
    pub tick_rate: u8,
}

/// Observable state of a time event.
#[derive(Debug, Clone, Copy, PartialEq, Eq, Structural)]
pub struct TimeState {
    /// Ticks left until expiry.
    pub remaining: u64,
    /// Whether the event is armed.
    pub armed: bool,
    /// Sticky "was disarmed" flag.
    pub disarmed_flag: bool,
    /// Periodic interval, if any.
    pub interval: Option<u64>,
}

/// One tick: the next state, and whether the event expired.
pub open spec fn tick_step(s: TimeState) -> (TimeState, bool) {
    if !s.armed {
        (s, false)
    } else {
        let rem = if s.remaining > 0 { (s.remaining - 1) as u64 } else { 0u64 };
        if rem == 0 {
            match s.interval {
                Some(p) => (TimeState { remaining: p, armed: true, ..s }, true),
                None => (TimeState { remaining: 0, armed: false, disarmed_flag: true, ..s }, true),
            }
        } else {
            (TimeState { remaining: rem, ..s }, false)
        }
    }
}

/// A software timer posting its signal to one active object.
pub struct TimeEvent {
    target: ActiveObjectId,
    cfg: TimeEventConfig,
    remaining: u64,
    armed: bool,
    disarmed_flag: bool,
    meta: Option<TimeEventTraceInfo>,
}

impl TimeEvent {
    /// The observable state.
    pub closed spec fn state(&self) -> TimeState {
        TimeState {
            remaining: self.remaining,
            armed: self.armed,
            disarmed_flag: self.disarmed_flag,
            interval: self.cfg.interval_ticks,
        }
    }

    /// The target active object.
    pub closed spec fn target_of(&self) -> ActiveObjectId {
        self.target
    }

    /// The signal posted on expiry.
    pub closed spec fn signal_of(&self) -> Signal {
        self.cfg.signal
    }

    /// The tick-rate domain.
    pub closed spec fn rate_of(&self) -> u8 {
        self.cfg.tick_rate
    }

    /// The trace metadata.
    pub closed spec fn meta_of(&self) -> Option<TimeEventTraceInfo> {
        self.meta
    }

    /// A disarmed time event posting `config.signal` to `target`.
    pub fn new(target: ActiveObjectId, config: TimeEventConfig) -> (t: TimeEvent)
        ensures
            t.state() == (TimeState { remaining: 0, armed: false, disarmed_flag: false, interval: config.interval_ticks }),
            t.target_of() == target,
            t.signal_of() == config.signal,
            t.rate_of() == config.tick_rate,
            t.meta_of().is_none(),
    {
        TimeEvent { target, cfg: config, remaining: 0, armed: false, disarmed_flag: false, meta: None }
    }

    /// Arms the event to expire after `timeout_ticks`, then every
    /// `interval_ticks` when given.
    pub fn arm(&mut self, timeout_ticks: u64, interval_ticks: Option<u64>)
        ensures
            final(self).state() == (TimeState {
                remaining: timeout_ticks,
                armed: true,
                disarmed_flag: old(self).state().disarmed_flag,
                interval: interval_ticks,
            }),
            final(self).target_of() == old(self).target_of(),
            final(self).signal_of() == old(self).signal_of(),
            final(self).rate_of() == old(self).rate_of(),
            final(self).meta_of() == old(self).meta_of(),
    {
        self.remaining = timeout_ticks;
        self.cfg.interval_ticks = interval_ticks;
        self.armed = true;
    }

    /// Cancels the event; if it was armed, sets the sticky "was disarmed"
    /// flag.
    pub fn disarm(&mut self)
        ensures
            old(self).state().armed ==> final(self).state() == (TimeState {
                remaining: 0,
                armed: false,
                disarmed_flag: true,
                interval: old(self).state().interval,
            }),
            !old(self).state().armed ==> final(self).state() == old(self).state(),
            final(self).target_of() == old(self).target_of(),
            final(self).signal_of() == old(self).signal_of(),
            final(self).rate_of() == old(self).rate_of(),
            final(self).meta_of() == old(self).meta_of(),
    {
        if self.armed {
            self.armed = false;
            self.remaining = 0;
            self.disarmed_flag = true;
        }
    }

    /// Sets the expiry counter and arms the event; returns whether it was
    /// already armed.
    pub fn rearm(&mut self, timeout_ticks: u64) -> (was_armed: bool)
        ensures
            was_armed == old(self).state().armed,
            final(self).state() == (TimeState {
                remaining: timeout_ticks,
                armed: true,
                ..old(self).state()
            }),
            final(self).target_of() == old(self).target_of(),
            final(self).signal_of() == old(self).signal_of(),
            final(self).rate_of() == old(self).rate_of(),
            final(self).meta_of() == old(self).meta_of(),
    {
        let was_armed = self.armed;
        self.remaining = timeout_ticks;
        self.armed = true;
        was_armed
    }

    /// Returns and clears the sticky "was disarmed" flag.
    pub fn was_disarmed(&mut self) -> (flag: bool)
        ensures
            flag == old(self).state().disarmed_flag,
            final(self).state() == (TimeState { disarmed_flag: false, ..old(self).state() }),
            final(self).target_of() == old(self).target_of(),
            final(self).signal_of() == old(self).signal_of(),
            final(self).rate_of() == old(self).rate_of(),
            final(self).meta_of() == old(self).meta_of(),
    {
        let flag = self.disarmed_flag;
        self.disarmed_flag = false;
        flag
    }

    /// Whether the event is armed.
    pub fn is_armed(&self) -> (r: bool)
        ensures
            r == self.state().armed,
    {
        self.armed
    }

    /// The tick-rate domain.
    pub fn tick_rate(&self) -> (r: u8)
        ensures
            r == self.rate_of(),
    {
        self.cfg.tick_rate
    }

    /// Sets the trace metadata.
    pub fn set_trace_meta(&mut self, info: TimeEventTraceInfo)
        ensures
            final(self).meta_of() == Some(info),
            final(self).state() == old(self).state(),
            final(self).target_of() == old(self).target_of(),
            final(self).signal_of() == old(self).signal_of(),
            final(self).rate_of() == old(self).rate_of(),
    {
        self.meta = Some(info);
    }

    /// Advances the event by one tick. On expiry returns the target and a
    /// signal-only event to post; one-shot events disarm themselves (setting
    /// the "was disarmed" flag), periodic ones re-arm with their interval.
    pub fn poll(&mut self) -> (r: Option<(ActiveObjectId, DynEvent)>)
        ensures
            final(self).state() == tick_step(old(self).state()).0,
            r is Some == tick_step(old(self).state()).1,
            r matches Some((t, e)) ==> t == old(self).target_of() && e.header.signal == old(self).signal_of()
                && *e.payload == Payload::Empty,
            final(self).target_of() == old(self).target_of(),
            final(self).signal_of() == old(self).signal_of(),
            final(self).rate_of() == old(self).rate_of(),
            final(self).meta_of() == old(self).meta_of(),
    {
        if !self.armed {
            return None;
        }
        if self.remaining > 0 {
            self.remaining = self.remaining - 1;
        }
        if self.remaining == 0 {
            let target = self.target;
            match self.cfg.interval_ticks {
                Some(period) => {
                    self.armed = true;
                    self.remaining = period;
                },
                None => {
                    self.armed = false;
                    self.disarmed_flag = true;
                },
            }
            Some((target, Event::empty_dyn(self.cfg.signal)))
        } else {
            None
        }
    }
}

/// The state after `n` ticks.
pub open spec fn ticks(s: TimeState, n: nat) -> TimeState
    decreases n,
{
    if n == 0 { s } else { ticks(tick_step(s).0, (n - 1) as nat) }
}

/// Law: an event armed for `t >= 1` ticks does not expire on the first
/// `t - 1` ticks and expires on the `t`-th.
pub proof fn lemma_expires_after(s: TimeState, t: u64)
    requires
        s.armed,
        s.remaining == t,
        t >= 1,
    ensures
        forall|k: nat| k + 1 < t ==> !#[trigger] tick_step(ticks(s, k)).1,
        tick_step(ticks(s, (t - 1) as nat)).1,
    decreases t,
{
    lemma_ticks_countdown(s, (t - 1) as nat);
    assert forall|k: nat| k + 1 < t implies !#[trigger] tick_step(ticks(s, k)).1 by {
        lemma_ticks_countdown(s, k);
    }
}

/// Law: a periodic event with interval `p >= 1` that expires on a tick
/// stays armed, with the same interval, and expires again exactly `p` ticks
/// later, not before; so it keeps firing every `p` ticks.
pub proof fn lemma_periodic_refires(s: TimeState, p: u64)
    requires
        s.interval == Some(p),
        p >= 1,
        tick_step(s).1,
    ensures
        tick_step(s).0.armed,
        tick_step(s).0.remaining == p,
        tick_step(s).0.interval == Some(p),
        forall|k: nat| k + 1 < p ==> !#[trigger] tick_step(ticks(tick_step(s).0, k)).1,
        tick_step(ticks(tick_step(s).0, (p - 1) as nat)).1,
        ticks(tick_step(s).0, (p - 1) as nat).interval == Some(p),
{
    lemma_expires_after(tick_step(s).0, p);
    lemma_ticks_keep_interval(tick_step(s).0, (p - 1) as nat);
}

/// Law: ticking never changes an event's interval.
pub proof fn lemma_ticks_keep_interval(s: TimeState, n: nat)
    ensures
        ticks(s, n).interval == s.interval,
        tick_step(s).0.interval == s.interval,
    decreases n,
{
    if n > 0 {
        lemma_ticks_keep_interval(tick_step(s).0, (n - 1) as nat);
    }
}

/// While counting down, each tick lowers the counter by one.
proof fn lemma_ticks_countdown(s: TimeState, k: nat)
    requires
        s.armed,
        k < s.remaining,
    ensures
        ticks(s, k) == (TimeState { remaining: (s.remaining - k) as u64, ..s }),
    decreases k,
{
    if k > 0 {
        lemma_ticks_countdown(s, (k - 1) as nat);
        lemma_ticks_last(s, (k - 1) as nat);
    }
}

proof fn lemma_ticks_last(s: TimeState, k: nat)
    ensures
        ticks(s, k + 1) == tick_step(ticks(s, k)).0,
    decreases k,
{
    assert(ticks(s, k + 1) == ticks(tick_step(s).0, k));
    if k > 0 {
        lemma_ticks_last(tick_step(s).0, (k - 1) as nat);
        assert(ticks(s, k) == ticks(tick_step(s).0, (k - 1) as nat));
    } else {
        assert(ticks(tick_step(s).0, 0) == tick_step(s).0);
    }
}

/// Errors of ticking a [`TimerWheel`].
#[derive(Debug, Clone, Copy, PartialEq, Eq, Structural)]
pub enum TimeEventError {
    /// The kernel refused to post an expired time event.
    Kernel(KernelError),
}

/// Whether time event `t` expires on its next tick.
pub open spec fn fires(t: TimeEvent) -> bool {
    tick_step(t.state()).1
}

/// Target and signal of the time events of `ts` that expire on this tick,
/// in order.
pub open spec fn expiries(ts: Seq<TimeEvent>) -> Seq<(ActiveObjectId, Signal)>
    decreases ts.len(),
{
    if ts.len() == 0 {
        Seq::empty()
    } else if fires(ts.last()) {
        expiries(ts.drop_last()).push((ts.last().target_of(), ts.last().signal_of()))
    } else {
        expiries(ts.drop_last())
    }
}

/// `msgs` are the timeout events for the expiries `exp`.
pub open spec fn timeout_events(msgs: Seq<(ActiveObjectId, DynEvent)>, exp: Seq<(ActiveObjectId, Signal)>) -> bool {
    &&& msgs.len() == exp.len()
    &&& forall|j: int| 0 <= j < msgs.len() ==> {
        &&& (#[trigger] msgs[j]).0 == exp[j].0
        &&& msgs[j].1.header.signal == exp[j].1
        &&& *msgs[j].1.payload == Payload::Empty
    }
}

/// The first `k` time events of `before` were ticked once, the others are
/// untouched.
pub open spec fn ticked_upto(before: Seq<TimeEvent>, after: Seq<TimeEvent>, k: int) -> bool {
    &&& after.len() == before.len()
    &&& forall|i: int| 0 <= i < k ==> {
        &&& (#[trigger] after[i]).state() == tick_step(before[i].state()).0
        &&& after[i].target_of() == before[i].target_of()
        &&& after[i].signal_of() == before[i].signal_of()
        &&& after[i].rate_of() == before[i].rate_of()
        &&& after[i].meta_of() == before[i].meta_of()
    }
    &&& forall|i: int| k <= i < before.len() ==> #[trigger] after[i] == before[i]
}

/// A set of time events ticked together, posting expiries to a kernel.
pub struct TimerWheel {
    events: Vec<TimeEvent>,
}

impl TimerWheel {
    /// The registered time events.
    pub closed spec fn timers(&self) -> Seq<TimeEvent> {
        self.events@
    }

    /// An empty wheel.
    pub fn new() -> (w: TimerWheel)
        ensures
            w.timers() == Seq::<TimeEvent>::empty(),
    {
        TimerWheel { events: Vec::new() }
    }

    /// Registers a time event; returns its index.
    pub fn register(&mut self, event: TimeEvent) -> (i: usize)
        requires
            old(self).timers().len() < usize::MAX,
        ensures
            i == old(self).timers().len(),
            final(self).timers() == old(self).timers().push(event),
    {
        let i = self.events.len();
        self.events.push(event);
        i
    }

    /// Number of registered time events.
    pub fn len(&self) -> (n: usize)
        ensures
            n == self.timers().len(),
    {
        self.events.len()
    }

    /// The time event at index `i`.
    pub fn timer(&self, i: usize) -> (t: &TimeEvent)
        requires
            i < self.timers().len(),
        ensures
            *t == self.timers()[i as int],
    {
        &self.events[i]
    }

    /// The time event at index `i`, mutably (to arm or disarm it).
    pub fn timer_mut(&mut self, i: usize) -> (t: &mut TimeEvent)
        requires
            i < old(self).timers().len(),
        ensures
            *t == old(self).timers()[i as int],
            final(self).timers() == old(self).timers().update(i as int, *final(t)),
    {
        &mut self.events[i]
    }

    /// Ticks every time event once, in registration order, posting each
    /// expiry to its target. Stops at the first expiry whose target is not
    /// registered, reporting it; later time events are then not ticked.
    pub fn tick<B: ActiveBehavior>(&mut self, kernel: &mut QvKernel<B>) -> (r: Result<(), TimeEventError>)
        requires
            old(kernel).wf(),
        ensures
            final(kernel).wf(),
            final(kernel).objects().len() == old(kernel).objects().len(),
            ids_of(final(kernel).objects()) == ids_of(old(kernel).objects()),
            prios_of(final(kernel).objects()) == prios_of(old(kernel).objects()),
            final(kernel).cfg() == old(kernel).cfg(),
            final(kernel).table() == old(kernel).table(),
            final(kernel).ceiling() == old(kernel).ceiling(),
            final(kernel).prev() == old(kernel).prev(),
            final(kernel).records() == old(kernel).records(),
            r is Ok ==> ticked_upto(old(self).timers(), final(self).timers(), old(self).timers().len() as int)
                && forall|i: int| 0 <= i < old(self).timers().len() && fires(#[trigger] old(self).timers()[i])
                    ==> slot_of(ids_of(old(kernel).objects()), old(self).timers()[i].target_of()) is Some,
            r matches Err(TimeEventError::Kernel(KernelError::NotFound(id))) ==> exists|k: int| {
                &&& 0 <= k < old(self).timers().len()
                &&& ticked_upto(old(self).timers(), final(self).timers(), k + 1)
                &&& fires(#[trigger] old(self).timers()[k])
                &&& old(self).timers()[k].target_of() == id
                &&& slot_of(ids_of(old(kernel).objects()), id) is None
            },
            exists|msgs: Seq<(ActiveObjectId, DynEvent)>, k: int| {
                &&& 0 <= k <= old(self).timers().len()
                &&& #[trigger] ticked_upto(old(self).timers(), final(self).timers(), k)
                &&& timeout_events(msgs, expiries(old(self).timers().take(k)))
                &&& queues_of(final(kernel).objects()) == #[trigger] deliver(
                    queues_of(old(kernel).objects()),
                    ids_of(old(kernel).objects()),
                    msgs,
                )
            },
    {
        let n = self.events.len();
        let ghost ids = ids_of(old(kernel).objects());
        let ghost q0 = queues_of(old(kernel).objects());
        let ghost mut msgs: Seq<(ActiveObjectId, DynEvent)> = Seq::empty();
        let mut i: usize = 0;
        proof {
            assert(old(self).timers().take(0) =~= Seq::<TimeEvent>::empty());
        }
        while i < n
            invariant
                old(kernel).wf(),
                kernel.wf(),
                n == old(self).timers().len(),
                i <= n,
                ids == ids_of(old(kernel).objects()),
                q0 == queues_of(old(kernel).objects()),
                kernel.objects().len() == old(kernel).objects().len(),
                ids_of(kernel.objects()) == ids,
                prios_of(kernel.objects()) == prios_of(old(kernel).objects()),
                kernel.cfg() == old(kernel).cfg(),
                kernel.table() == old(kernel).table(),
                kernel.ceiling() == old(kernel).ceiling(),
                kernel.prev() == old(kernel).prev(),
                kernel.records() == old(kernel).records(),
                ticked_upto(old(self).timers(), self.timers(), i as int),
                timeout_events(msgs, expiries(old(self).timers().take(i as int))),
                queues_of(kernel.objects()) == deliver(q0, ids, msgs),
                forall|j: int| 0 <= j < i && fires(#[trigger] old(self).timers()[j])
                    ==> slot_of(ids, old(self).timers()[j].target_of()) is Some,
            decreases n - i,
        {
            let ghost before = self.events@;
            let ghost t_old = old(self).timers()[i as int];
            assert(before[i as int] == t_old);
            let polled = self.events[i].poll();
            proof {
                assert(old(self).timers().take(i + 1).drop_last() =~= old(self).timers().take(i as int));
                assert(old(self).timers().take(i + 1).last() == t_old);
                assert forall|j: int| 0 <= j < self.timers().len() && j != i implies #[trigger] self.timers()[j] == before[j] by {}
            }
            match polled {
                Some((target, event)) => {
                    let ghost m = (target, event);
                    let res = kernel.post(target, event);
                    proof {
                        lemma_deliver_snoc(q0, ids, msgs, m);
                        msgs = msgs.push(m);
                    }
                    match res {
                        Ok(()) => {},
                        Err(e) => {
                            proof {
                                assert(ticked_upto(old(self).timers(), self.timers(), i + 1));
                            }
                            return Err(TimeEventError::Kernel(e));
                        },
                    }
                },
                None => {},
            }
            i = i + 1;
        }
        proof {
            assert(old(self).timers().take(n as int) =~= old(self).timers());
        }
        Ok(())
    }

    /// [`TimerWheel::tick`] from interrupt context.
    pub fn tick_from_isr<B: ActiveBehavior>(&mut self, kernel: &mut QvKernel<B>) -> (r: Result<(), TimeEventError>)
        requires
            old(kernel).wf(),
        ensures
            final(kernel).wf(),
            final(kernel).objects().len() == old(kernel).objects().len(),
            ids_of(final(kernel).objects()) == ids_of(old(kernel).objects()),
            prios_of(final(kernel).objects()) == prios_of(old(kernel).objects()),
            r is Ok ==> ticked_upto(old(self).timers(), final(self).timers(), old(self).timers().len() as int),
            exists|msgs: Seq<(ActiveObjectId, DynEvent)>, k: int| {
                &&& 0 <= k <= old(self).timers().len()
                &&& #[trigger] ticked_upto(old(self).timers(), final(self).timers(), k)
                &&& timeout_events(msgs, expiries(old(self).timers().take(k)))
                &&& queues_of(final(kernel).objects()) == #[trigger] deliver(
                    queues_of(old(kernel).objects()),
                    ids_of(old(kernel).objects()),
                    msgs,
                )
            },
    {
        self.tick(kernel)
    }
}

/// Delivering one more event after a run.
proof fn lemma_deliver_snoc(
    qs: Seq<Seq<DynEvent>>,
    ids: Seq<ActiveObjectId>,
    a: Seq<(ActiveObjectId, DynEvent)>,
    m: (ActiveObjectId, DynEvent),
)
    ensures
        deliver(qs, ids, a.push(m)) == crate::qf::kernel::deliver_one(deliver(qs, ids, a), ids, m),
{
    crate::qf::kernel::lemma_deliver_append(qs, ids, a, seq![m]);
    assert(a + seq![m] =~= a.push(m));
    let d = deliver(qs, ids, a);
    assert(seq![m].drop_first() =~= Seq::<(ActiveObjectId, DynEvent)>::empty());
    assert(deliver(d, ids, seq![m]) == deliver(crate::qf::kernel::deliver_one(d, ids, m), ids, Seq::<(ActiveObjectId, DynEvent)>::empty()));
}

} // verus!
