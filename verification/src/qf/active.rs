//! Active objects: a behaviour (state machine) with its own event queue and
//! priority.
//!
//! Events an active object sends to other active objects while handling an
//! event are collected in its outbox; the kernel delivers them after the
//! handler returns.

use vstd::prelude::*;
use std::collections::VecDeque;
use crate::qf::event::{DynEvent, Signal};

verus! {

/// Identifier of an active object.
#[derive(Debug, Clone, Copy, PartialEq, Eq, Structural, PartialOrd, Ord, Hash)]
pub struct ActiveObjectId(pub u8);

impl ActiveObjectId {
    /// An identifier from its raw value.
    pub fn new(id: u8) -> (r: ActiveObjectId)
        ensures
            r.0 == id,
    {
        ActiveObjectId(id)
    }
}

/// Per-dispatch context handed to behaviours.
pub struct ActiveContext {
    id: ActiveObjectId,
    outbox: Vec<(ActiveObjectId, DynEvent)>,
}

impl ActiveContext {
    /// The active object the context belongs to.
    pub closed spec fn owner(&self) -> ActiveObjectId {
        self.id
    }

    /// Events posted through this context, in order.
    pub closed spec fn sent(&self) -> Seq<(ActiveObjectId, DynEvent)> {
        self.outbox@
    }

    /// A context for active object `id` with nothing sent.
    pub fn new(id: ActiveObjectId) -> (c: ActiveContext)
        ensures
            c.owner() == id,
            c.sent() == Seq::<(ActiveObjectId, DynEvent)>::empty(),
    {
        ActiveContext { id, outbox: Vec::new() }
    }

    /// The active object this context belongs to.
    pub fn id(&self) -> (r: ActiveObjectId)
        ensures
            r == self.owner(),
    {
        self.id
    }

    /// Sends `event` to active object `target` once the handler returns.
    pub fn post(&mut self, target: ActiveObjectId, event: DynEvent)
        ensures
            final(self).owner() == old(self).owner(),
            final(self).sent() == old(self).sent().push((target, event)),
    {
        self.outbox.push((target, event));
    }

    /// Takes the events sent so far.
    pub fn take_sent(&mut self) -> (r: Vec<(ActiveObjectId, DynEvent)>)
        ensures
            r@ == old(self).sent(),
            final(self).sent() == Seq::<(ActiveObjectId, DynEvent)>::empty(),
            final(self).owner() == old(self).owner(),
    {
        let mut r = Vec::new();
        std::mem::swap(&mut r, &mut self.outbox);
        r
    }
}

/// Behaviour of an active object, implemented by the application.
pub trait ActiveBehavior: Sized {
    /// What [`on_start`](ActiveBehavior::on_start) does: relates the
    /// behaviour and its context before the call to them after it.
    /// Promises nothing unless the behaviour says more.
    open spec fn start_spec(self, ctx: ActiveContext, after: Self, ctx_after: ActiveContext) -> bool {
        true
    }

    /// What [`on_event`](ActiveBehavior::on_event) does with `event`, in
    /// the same terms.
    /// Promises nothing unless the behaviour says more.
    open spec fn event_spec(self, ctx: ActiveContext, event: DynEvent, after: Self, ctx_after: ActiveContext) -> bool {
        true
    }

    /// Called once when the active object starts.
    fn on_start(&mut self, ctx: &mut ActiveContext)
        ensures
            old(self).start_spec(*old(ctx), *final(self), *final(ctx)),
    ;

    /// Called for each event dispatched to the active object.
    fn on_event(&mut self, ctx: &mut ActiveContext, event: DynEvent)
        ensures
            old(self).event_spec(*old(ctx), event, *final(self), *final(ctx)),
    ;
}

/// Convenience behaviour for machines that only react to signals.
pub trait SignalHandler: Sized {
    /// What [`handle_signal`](SignalHandler::handle_signal) does with
    /// `signal`: relates the handler and its context before the call to
    /// them after it.
    /// Promises nothing unless the handler says more.
    open spec fn signal_spec(self, signal: Signal, ctx: ActiveContext, after: Self, ctx_after: ActiveContext) -> bool {
        true
    }

    /// Start hook; does nothing unless overridden.
    fn on_start(&mut self, _ctx: &mut ActiveContext) {
    }

    /// Handles one signal.
    fn handle_signal(&mut self, signal: Signal, ctx: &mut ActiveContext)
        ensures
            old(self).signal_spec(signal, *old(ctx), *final(self), *final(ctx)),
    ;
}

impl<T: SignalHandler> ActiveBehavior for T {
    /// The start hook promises nothing.
    open spec fn start_spec(self, ctx: ActiveContext, after: Self, ctx_after: ActiveContext) -> bool {
        true
    }

    /// The event's signal is handled.
    open spec fn event_spec(self, ctx: ActiveContext, event: DynEvent, after: Self, ctx_after: ActiveContext) -> bool {
        self.signal_spec(event.header.signal, ctx, after, ctx_after)
    }

    fn on_start(&mut self, ctx: &mut ActiveContext) {
        SignalHandler::on_start(self, ctx);
    }

    fn on_event(&mut self, ctx: &mut ActiveContext, event: DynEvent) {
        SignalHandler::handle_signal(self, event.signal(), ctx);
    }
}

/// Event queue that records the largest number of events ever queued.
pub struct EventQueue {
    buf: VecDeque<DynEvent>,
    high_watermark: usize,
}

impl EventQueue {
    /// Queued events, front first.
    pub closed spec fn events(&self) -> Seq<DynEvent> {
        self.buf@
    }

    /// Largest number of events ever queued at once.
    pub closed spec fn peak(&self) -> nat {
        self.high_watermark as nat
    }

    /// The peak bounds the current length.
    pub closed spec fn wf(&self) -> bool {
        self.buf@.len() <= self.high_watermark
    }

    /// An empty queue.
    pub fn new() -> (q: EventQueue)
        ensures
            q.wf(),
            q.events() == Seq::<DynEvent>::empty(),
            q.peak() == 0,
    {
        EventQueue { buf: VecDeque::new(), high_watermark: 0 }
    }

    fn touch_watermark(&mut self)
        ensures
            final(self).events() == old(self).events(),
            final(self).peak() == if old(self).events().len() > old(self).peak() {
                old(self).events().len()
            } else {
                old(self).peak()
            },
    {
        if self.buf.len() > self.high_watermark {
            self.high_watermark = self.buf.len();
        }
    }

    /// Queues at the back.
    pub fn push_back(&mut self, event: DynEvent)
        requires
            old(self).wf(),
        ensures
            final(self).wf(),
            final(self).events() == old(self).events().push(event),
            final(self).peak() == if old(self).events().len() + 1 > old(self).peak() {
                old(self).events().len() + 1
            } else {
                old(self).peak()
            },
    {
        self.buf.push_back(event);
        self.touch_watermark();
    }

    /// Queues at the front.
    pub fn push_front(&mut self, event: DynEvent)
        requires
            old(self).wf(),
        ensures
            final(self).wf(),
            final(self).events() == seq![event] + old(self).events(),
            final(self).peak() == if old(self).events().len() + 1 > old(self).peak() {
                old(self).events().len() + 1
            } else {
                old(self).peak()
            },
    {
        self.buf.push_front(event);
        self.touch_watermark();
    }

    /// Removes the front event.
    pub fn pop_front(&mut self) -> (r: Option<DynEvent>)
        requires
            old(self).wf(),
        ensures
            final(self).wf(),
            final(self).peak() == old(self).peak(),
            old(self).events().len() == 0 ==> r is None && final(self).events() == old(self).events(),
            old(self).events().len() > 0 ==> r == Some(old(self).events()[0])
                && final(self).events() == old(self).events().drop_first(),
    {
        self.buf.pop_front()
    }

    /// Number of queued events.
    pub fn len(&self) -> (r: usize)
        ensures
            r == self.events().len(),
    {
        self.buf.len()
    }

    /// Whether no event is queued.
    pub fn is_empty(&self) -> (r: bool)
        ensures
            r == (self.events().len() == 0),
    {
        self.buf.len() == 0
    }
}

/// An active object: id, priority, event queue and behaviour.
pub struct ActiveObject<B: ActiveBehavior> {
    id: ActiveObjectId,
    priority: u8,
    queue: EventQueue,
    behavior: B,
    outbox: Vec<(ActiveObjectId, DynEvent)>,
}

impl<B: ActiveBehavior> ActiveObject<B> {
    /// Internal consistency of the queue.
    pub closed spec fn wf(&self) -> bool {
        self.queue.wf()
    }

    /// The active object's id.
    pub closed spec fn ident(&self) -> ActiveObjectId {
        self.id
    }

    /// The active object's priority.
    pub closed spec fn prio(&self) -> u8 {
        self.priority
    }

    /// Queued events, front first.
    pub closed spec fn queued(&self) -> Seq<DynEvent> {
        self.queue.events()
    }

    /// Largest number of events ever queued at once.
    pub closed spec fn peak(&self) -> nat {
        self.queue.peak()
    }

    /// Events sent to other active objects and not yet delivered.
    pub closed spec fn sent(&self) -> Seq<(ActiveObjectId, DynEvent)> {
        self.outbox@
    }

    /// An active object with an empty queue.
    pub fn new(id: ActiveObjectId, priority: u8, behavior: B) -> (a: ActiveObject<B>)
        ensures
            a.wf(),
            a.ident() == id,
            a.prio() == priority,
            a.queued() == Seq::<DynEvent>::empty(),
            a.peak() == 0,
            a.sent() == Seq::<(ActiveObjectId, DynEvent)>::empty(),
    {
        ActiveObject { id, priority, queue: EventQueue::new(), behavior, outbox: Vec::new() }
    }

    /// The behaviour.
    pub closed spec fn beh(&self) -> B {
        self.behavior
    }

    /// The behaviour.
    pub fn behavior(&self) -> (b: &B)
        ensures
            *b == self.beh(),
    {
        &self.behavior
    }

    /// The behaviour, mutably; the queue and everything else stay as they are.
    pub fn behavior_mut(&mut self) -> (b: &mut B)
        ensures
            *b == old(self).beh(),
            final(self).beh() == *final(b),
            final(self).wf() == old(self).wf(),
            final(self).ident() == old(self).ident(),
            final(self).prio() == old(self).prio(),
            final(self).queued() == old(self).queued(),
            final(self).peak() == old(self).peak(),
            final(self).sent() == old(self).sent(),
    {
        &mut self.behavior
    }

    /// Number of queued events.
    pub fn queue_len(&self) -> (r: usize)
        ensures
            r == self.queued().len(),
    {
        self.queue.len()
    }

    /// Largest number of events ever queued at once.
    pub fn queue_high_watermark(&self) -> (r: usize)
        ensures
            r == self.peak(),
    {
        self.queue.high_watermark
    }

    /// Takes the events sent to other active objects.
    pub fn take_sent(&mut self) -> (r: Vec<(ActiveObjectId, DynEvent)>)
        ensures
            r@ == old(self).sent(),
            final(self).sent() == Seq::<(ActiveObjectId, DynEvent)>::empty(),
            final(self).wf() == old(self).wf(),
            final(self).ident() == old(self).ident(),
            final(self).prio() == old(self).prio(),
            final(self).queued() == old(self).queued(),
            final(self).peak() == old(self).peak(),
            final(self).beh() == old(self).beh(),
    {
        let mut r = Vec::new();
        std::mem::swap(&mut r, &mut self.outbox);
        r
    }

    fn keep_sent(&mut self, ctx: &mut ActiveContext)
        ensures
            final(self).beh() == old(self).beh(),
            final(self).sent() == old(self).sent() + old(ctx).sent(),
            final(self).wf() == old(self).wf(),
            final(self).ident() == old(self).ident(),
            final(self).prio() == old(self).prio(),
            final(self).queued() == old(self).queued(),
            final(self).peak() == old(self).peak(),
    {
        let mut posted = ctx.take_sent();
        self.outbox.append(&mut posted);
    }

    /// The id.
    pub fn id(&self) -> (r: ActiveObjectId)
        ensures
            r == self.ident(),
    {
        self.id
    }

    /// The priority.
    pub fn priority(&self) -> (r: u8)
        ensures
            r == self.prio(),
    {
        self.priority
    }

    /// Starts the behaviour with a fresh context of its own and keeps what
    /// it sent.
    pub fn start(&mut self)
        ensures
            old(self).sent().is_prefix_of(final(self).sent()),
            exists|c0: ActiveContext, c1: ActiveContext| #![trigger old(self).beh().start_spec(c0, final(self).beh(), c1)]
                {
                    &&& c0.owner() == old(self).ident()
                    &&& c0.sent() == Seq::<(ActiveObjectId, DynEvent)>::empty()
                    &&& old(self).beh().start_spec(c0, final(self).beh(), c1)
                    &&& final(self).sent() == old(self).sent() + c1.sent()
                },
            final(self).wf() == old(self).wf(),
            final(self).ident() == old(self).ident(),
            final(self).prio() == old(self).prio(),
            final(self).queued() == old(self).queued(),
            final(self).peak() == old(self).peak(),
    {
        let mut ctx = ActiveContext::new(self.id);
        let ghost c0 = ctx;
        self.behavior.on_start(&mut ctx);
        let ghost c1 = ctx;
        self.keep_sent(&mut ctx);
        assert(old(self).sent() =~= self.sent().subrange(0, old(self).sent().len() as int));
        assert(old(self).beh().start_spec(c0, self.beh(), c1));
    }

    /// Removes the front event and hands it to the behaviour; `false` when
    /// nothing is queued.
    pub fn dispatch_one(&mut self) -> (r: bool)
        requires
            old(self).wf(),
        ensures
            final(self).wf(),
            r == (old(self).queued().len() > 0),
            r ==> final(self).queued() == old(self).queued().drop_first(),
            !r ==> final(self).queued() == old(self).queued(),
            !r ==> final(self).beh() == old(self).beh() && final(self).sent() == old(self).sent(),
            r ==> exists|c0: ActiveContext, c1: ActiveContext|
                #![trigger old(self).beh().event_spec(c0, old(self).queued()[0], final(self).beh(), c1)]
                {
                    &&& c0.owner() == old(self).ident()
                    &&& c0.sent() == Seq::<(ActiveObjectId, DynEvent)>::empty()
                    &&& old(self).beh().event_spec(c0, old(self).queued()[0], final(self).beh(), c1)
                    &&& final(self).sent() == old(self).sent() + c1.sent()
                },
            final(self).ident() == old(self).ident(),
            final(self).prio() == old(self).prio(),
            final(self).peak() == old(self).peak(),
    {
        match self.queue.pop_front() {
            Some(event) => {
                let mut ctx = ActiveContext::new(self.id);
                let ghost c0 = ctx;
                let ghost ev = event;
                self.behavior.on_event(&mut ctx, event);
                let ghost c1 = ctx;
                self.keep_sent(&mut ctx);
                assert(ev == old(self).queued()[0]);
                assert(old(self).beh().event_spec(c0, old(self).queued()[0], self.beh(), c1));
                true
            },
            None => false,
        }
    }

    /// Queues `event` at the back.
    pub fn post(&mut self, event: DynEvent)
        requires
            old(self).wf(),
        ensures
            final(self).wf(),
            final(self).queued() == old(self).queued().push(event),
            final(self).ident() == old(self).ident(),
            final(self).prio() == old(self).prio(),
            final(self).sent() == old(self).sent(),
            final(self).beh() == old(self).beh(),
            final(self).peak() == if old(self).queued().len() + 1 > old(self).peak() {
                old(self).queued().len() + 1
            } else {
                old(self).peak()
            },
    {
        self.queue.push_back(event);
    }

    /// Queues `event` at the front.
    pub fn post_lifo(&mut self, event: DynEvent)
        requires
            old(self).wf(),
        ensures
            final(self).wf(),
            final(self).queued() == seq![event] + old(self).queued(),
            final(self).ident() == old(self).ident(),
            final(self).prio() == old(self).prio(),
            final(self).sent() == old(self).sent(),
            final(self).peak() == if old(self).queued().len() + 1 > old(self).peak() {
                old(self).queued().len() + 1
            } else {
                old(self).peak()
            },
    {
        self.queue.push_front(event);
    }

    /// Whether events are queued.
    pub fn has_events(&self) -> (r: bool)
        ensures
            r == (self.queued().len() > 0),
    {
        !self.queue.is_empty()
    }
}

/// Builds an active object.
pub fn new_active_object<B: ActiveBehavior>(id: ActiveObjectId, priority: u8, behavior: B) -> (a: ActiveObject<B>)
    ensures
        a.wf(),
        a.ident() == id,
        a.prio() == priority,
        a.queued() == Seq::<DynEvent>::empty(),
        a.peak() == 0,
{
    ActiveObject::new(id, priority, behavior)
}

} // verus!
