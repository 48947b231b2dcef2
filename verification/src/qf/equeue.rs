//! Fixed-capacity event queue with a sticky low-watermark of free slots, and
//! the defer / recall pattern built on it.

use vstd::prelude::*;
use std::collections::VecDeque;
use crate::qf::event::DynEvent;
use crate::qf::active::{ActiveBehavior, ActiveObject};

verus! {

/// FIFO event queue holding at most `capacity` events.
pub struct QEQueue {
    buffer: VecDeque<DynEvent>,
    capacity: usize,
    min_free: usize,
}

impl QEQueue {
    /// The queue never exceeds its capacity and the watermark never exceeds
    /// the free slots.
    pub closed spec fn wf(&self) -> bool {
        &&& self.buffer@.len() <= self.capacity
        &&& self.min_free <= self.capacity - self.buffer@.len()
    }

    /// Queued events, front first.
    pub closed spec fn events(&self) -> Seq<DynEvent> {
        self.buffer@
    }

    /// Maximum number of events.
    pub closed spec fn cap(&self) -> nat {
        self.capacity as nat
    }

    /// Fewest free slots ever observed.
    pub closed spec fn min_free_spec(&self) -> nat {
        self.min_free as nat
    }

    /// An empty queue of the given capacity.
    pub fn new(capacity: usize) -> (q: QEQueue)
        ensures
            q.wf(),
            q.events() == Seq::<DynEvent>::empty(),
            q.cap() == capacity,
            q.min_free_spec() == capacity,
    {
        QEQueue { buffer: VecDeque::new(), capacity, min_free: capacity }
    }

    fn update_watermark(&mut self)
        requires
            old(self).buffer@.len() <= old(self).capacity,
        ensures
            final(self).buffer@ == old(self).buffer@,
            final(self).capacity == old(self).capacity,
            final(self).min_free == if old(self).capacity - old(self).buffer@.len() < old(self).min_free {
                (old(self).capacity - old(self).buffer@.len()) as usize
            } else {
                old(self).min_free
            },
    {
        let free = self.capacity - self.buffer.len();
        if free < self.min_free {
            self.min_free = free;
        }
    }

    /// Posts `event` at the back when more than `margin` slots are free;
    /// returns whether it was queued.
    pub fn post(&mut self, event: DynEvent, margin: usize) -> (r: bool)
        requires
            old(self).wf(),
        ensures
            final(self).wf(),
            final(self).cap() == old(self).cap(),
            r == (old(self).cap() - old(self).events().len() > margin),
            r ==> final(self).events() == old(self).events().push(event),
            r ==> final(self).min_free_spec() == if old(self).cap() - old(self).events().len() - 1 < old(self).min_free_spec() {
                (old(self).cap() - old(self).events().len() - 1) as nat
            } else {
                old(self).min_free_spec()
            },
            !r ==> final(self).events() == old(self).events() && final(self).min_free_spec() == old(self).min_free_spec(),
    {
        let free = self.capacity - self.buffer.len();
        if free > margin {
            self.buffer.push_back(event);
            self.update_watermark();
            true
        } else {
            false
        }
    }

    /// Posts `event` at the front unless the queue is full; returns whether
    /// it was queued.
    pub fn post_lifo(&mut self, event: DynEvent) -> (r: bool)
        requires
            old(self).wf(),
        ensures
            final(self).wf(),
            final(self).cap() == old(self).cap(),
            r == (old(self).events().len() < old(self).cap()),
            r ==> final(self).events() == seq![event] + old(self).events(),
            r ==> final(self).min_free_spec() == if old(self).cap() - old(self).events().len() - 1 < old(self).min_free_spec() {
                (old(self).cap() - old(self).events().len() - 1) as nat
            } else {
                old(self).min_free_spec()
            },
            !r ==> final(self).events() == old(self).events() && final(self).min_free_spec() == old(self).min_free_spec(),
    {
        if self.buffer.len() < self.capacity {
            self.buffer.push_front(event);
            self.update_watermark();
            true
        } else {
            false
        }
    }

    /// Removes and returns the front event.
    pub fn get(&mut self) -> (r: Option<DynEvent>)
        requires
            old(self).wf(),
        ensures
            final(self).wf(),
            final(self).cap() == old(self).cap(),
            final(self).min_free_spec() == old(self).min_free_spec(),
            old(self).events().len() == 0 ==> r is None && final(self).events() == old(self).events(),
            old(self).events().len() > 0 ==> r == Some(old(self).events()[0])
                && final(self).events() == old(self).events().drop_first(),
    {
        self.buffer.pop_front()
    }

    /// Whether an event is queued.
    pub fn peek_front(&self) -> (r: bool)
        ensures
            r == (self.events().len() > 0),
    {
        self.buffer.len() != 0
    }

    /// Whether no event is queued.
    pub fn is_empty(&self) -> (r: bool)
        ensures
            r == (self.events().len() == 0),
    {
        self.buffer.len() == 0
    }

    /// Number of free slots.
    pub fn get_free(&self) -> (r: usize)
        requires
            self.wf(),
        ensures
            r == self.cap() - self.events().len(),
    {
        self.capacity - self.buffer.len()
    }

    /// Fewest free slots ever observed.
    pub fn get_min(&self) -> (r: usize)
        ensures
            r == self.min_free_spec(),
    {
        self.min_free
    }

    /// Number of queued events.
    pub fn len(&self) -> (r: usize)
        ensures
            r == self.events().len(),
    {
        self.buffer.len()
    }

    /// Maximum number of events.
    pub fn capacity(&self) -> (r: usize)
        ensures
            r == self.cap(),
    {
        self.capacity
    }
}

/// Parks `event` in `eq` on behalf of `ao` (any free slot suffices); returns
/// whether it was accepted.
pub fn defer<B: ActiveBehavior>(ao: &ActiveObject<B>, eq: &mut QEQueue, event: DynEvent) -> (r: bool)
    requires
        old(eq).wf(),
    ensures
        final(eq).wf(),
        r == (old(eq).events().len() < old(eq).cap()),
        r ==> final(eq).events() == old(eq).events().push(event),
        !r ==> final(eq).events() == old(eq).events(),
{
    eq.post(event, 0)
}

/// Moves the front event of `eq` to the front of `ao`'s queue; returns
/// whether an event was moved.
pub fn recall<B: ActiveBehavior>(ao: &mut ActiveObject<B>, eq: &mut QEQueue) -> (r: bool)
    requires
        old(eq).wf(),
        old(ao).wf(),
    ensures
        final(eq).wf(),
        final(ao).wf(),
        r == (old(eq).events().len() > 0),
        r ==> final(eq).events() == old(eq).events().drop_first()
            && final(ao).queued() == seq![old(eq).events()[0]] + old(ao).queued(),
        !r ==> final(eq).events() == old(eq).events() && final(ao).queued() == old(ao).queued(),
        final(ao).ident() == old(ao).ident(),
        final(ao).prio() == old(ao).prio(),
{
    match eq.get() {
        Some(event) => {
            ao.post_lifo(event);
            true
        },
        None => false,
    }
}

/// Discards up to `num` events from the front of `eq`; returns how many were
/// discarded.
pub fn flush_deferred(eq: &mut QEQueue, num: usize) -> (n: usize)
    requires
        old(eq).wf(),
    ensures
        final(eq).wf(),
        n == if num < old(eq).events().len() { num as nat } else { old(eq).events().len() },
        final(eq).events() == old(eq).events().skip(n as int),
{
    let mut count: usize = 0;
    while count < num
        invariant
            eq.wf(),
            count <= num,
            count <= old(eq).events().len(),
            eq.events() == old(eq).events().skip(count as int),
        ensures
            eq.wf(),
            count <= num,
            count <= old(eq).events().len(),
            eq.events() == old(eq).events().skip(count as int),
            count == num || count == old(eq).events().len(),
        decreases num - count,
    {
        if eq.get().is_none() {
            break;
        }
        count += 1;
        proof {
            assert(eq.events() =~= old(eq).events().skip(count as int));
        }
    }
    count
}

/// Law: the queue is first-in first-out: after posting `e` behind the
/// events `q`, taking from the front yields the oldest event and leaves the
/// rest in posting order.
pub proof fn lemma_post_get_fifo(q: Seq<DynEvent>, e: DynEvent)
    ensures
        q.push(e)[0] == (if q.len() == 0 { e } else { q[0] }),
        q.push(e).drop_first() == (if q.len() == 0 { Seq::<DynEvent>::empty() } else { q.drop_first().push(e) }),
{
    if q.len() == 0 {
        assert(q.push(e).drop_first() =~= Seq::<DynEvent>::empty());
    } else {
        assert(q.push(e).drop_first() =~= q.drop_first().push(e));
    }
}

/// Law: an event posted at the front is the next one taken, and taking it
/// gives back the queue as it was.
pub proof fn lemma_post_lifo_get(q: Seq<DynEvent>, e: DynEvent)
    ensures
        (seq![e] + q)[0] == e,
        (seq![e] + q).drop_first() == q,
{
    assert((seq![e] + q).drop_first() =~= q);
}

} // verus!
