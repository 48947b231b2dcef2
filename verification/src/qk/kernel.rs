//! Preemptive (QK) kernel: one active object per priority `1..=63`, each
//! with a preemption threshold; a ready object runs when its priority
//! exceeds the running object's threshold and the lock ceiling.

use vstd::prelude::*;
use crate::qf::active::{ActiveBehavior, ActiveContext, ActiveObject, ActiveObjectId};
use crate::qf::event::{DynEvent, Signal};
use crate::qf::kernel::retargeted;
use crate::qk::scheduler::{eligible, QkScheduler, SchedStatus, ScheduleDecision};

verus! {

/// Highest application priority.
pub const MAX_PRIORITY: u8 = 63;

/// Number of priority slots (idle priority 0 included).
pub const PRIORITY_SLOTS: usize = 64;

/// Most activations one dispatch runs before returning.
pub const MAX_ACTIVATIONS: usize = 1_048_576;

/// Errors of the preemptive kernel.
#[derive(Debug, Clone, Copy, PartialEq, Eq, Structural)]
pub enum QkKernelError {
    /// Two active objects were registered at the same priority.
    DuplicatePriority(u8),
    /// No active object is registered under the id.
    NotFound(ActiveObjectId),
}

/// A registered active object and its preemption threshold.
pub struct QkSlot<B: ActiveBehavior> {
    object: ActiveObject<B>,
    threshold: u8,
}

impl<B: ActiveBehavior> QkSlot<B> {
    /// The active object.
    pub closed spec fn obj(&self) -> ActiveObject<B> {
        self.object
    }

    /// The preemption threshold.
    pub closed spec fn thr(&self) -> u8 {
        self.threshold
    }

    /// The active object.
    pub fn object(&self) -> (o: &ActiveObject<B>)
        ensures
            *o == self.obj(),
    {
        &self.object
    }

    /// The preemption threshold.
    pub fn threshold(&self) -> (t: u8)
        ensures
            t == self.thr(),
    {
        self.threshold
    }
}

/// Builder of a [`QkKernel`].
pub struct QkKernelBuilder<B: ActiveBehavior> {
    registrations: Vec<QkSlot<B>>,
}

/// A registration is valid: priority in `1..=63`, threshold between it and
/// 63, queue well-formed.
pub open spec fn valid_slot<B: ActiveBehavior>(s: QkSlot<B>) -> bool {
    &&& 1 <= s.obj().prio() <= MAX_PRIORITY
    &&& s.obj().prio() <= s.thr() <= MAX_PRIORITY
    &&& s.obj().wf()
}

impl<B: ActiveBehavior> QkKernelBuilder<B> {
    /// Registrations so far, in order.
    pub closed spec fn regs(&self) -> Seq<QkSlot<B>> {
        self.registrations@
    }

    /// A builder with nothing registered.
    pub fn new() -> (b: QkKernelBuilder<B>)
        ensures
            b.regs() == Seq::<QkSlot<B>>::empty(),
    {
        QkKernelBuilder { registrations: Vec::new() }
    }

    /// Registers `object` with a threshold equal to its priority, which must
    /// be in `1..=63`.
    pub fn register(self, object: ActiveObject<B>) -> (b: QkKernelBuilder<B>)
        requires
            1 <= object.prio() <= MAX_PRIORITY,
            object.wf(),
        ensures
            b.regs().len() == self.regs().len() + 1,
            b.regs().drop_last() == self.regs(),
            b.regs().last().obj() == object,
            b.regs().last().thr() == object.prio(),
    {
        let threshold = object.priority();
        let mut b = self;
        b.registrations.push(QkSlot { object, threshold });
        assert(b.registrations@.drop_last() =~= self.registrations@);
        b
    }

    /// Registers `object` with preemption threshold `threshold`, which must
    /// be between its priority and 63.
    pub fn register_with_threshold(self, object: ActiveObject<B>, threshold: u8) -> (b: QkKernelBuilder<B>)
        requires
            1 <= object.prio() <= MAX_PRIORITY,
            object.prio() <= threshold <= MAX_PRIORITY,
            object.wf(),
        ensures
            b.regs().len() == self.regs().len() + 1,
            b.regs().drop_last() == self.regs(),
            b.regs().last().obj() == object,
            b.regs().last().thr() == threshold,
    {
        let mut b = self;
        b.registrations.push(QkSlot { object, threshold });
        assert(b.registrations@.drop_last() =~= self.registrations@);
        b
    }

    /// The kernel; fails with the first priority registered twice.
    pub fn build(self) -> (r: Result<QkKernel<B>, QkKernelError>)
        requires
            forall|i: int| 0 <= i < self.regs().len() ==> valid_slot(#[trigger] self.regs()[i]),
        ensures
            r matches Ok(k) ==> k.wf() && k.sched().active() == 0 && k.sched().threshold() == 0
                && forall|i: int, j: int| 0 <= i < j < self.regs().len() ==> self.regs()[i].obj().prio() != self.regs()[j].obj().prio(),
            r matches Err(e) ==> e matches QkKernelError::DuplicatePriority(p) && exists|i: int, j: int|
                0 <= i < j < self.regs().len() && self.regs()[i].obj().prio() == p && self.regs()[j].obj().prio() == p,
    {
        proof {
            assert forall|i: int| 0 <= i < self.registrations@.len() implies valid_slot(#[trigger] self.registrations@[i]) by {
                assert(valid_slot(self.regs()[i]));
            }
        }
        let r = QkKernel::new(self.registrations);
        proof {
            match r {
                Err(QkKernelError::DuplicatePriority(p)) => {
                    let (i, j) = choose|i: int, j: int|
                        0 <= i < j < self.registrations@.len() && self.registrations@[i].obj().prio() == p && self.registrations@[j].obj().prio() == p;
                    assert(self.regs()[i].obj().prio() == p && self.regs()[j].obj().prio() == p);
                },
                _ => {},
            }
        }
        r
    }
}

/// Slot `p` holds the object with id `id`.
pub open spec fn routes_to<B: ActiveBehavior>(slots: Seq<Option<QkSlot<B>>>, id: ActiveObjectId, p: u8) -> bool {
    &&& p < PRIORITY_SLOTS
    &&& slots[p as int] is Some
    &&& slots[p as int]->Some_0.obj().ident() == id
}

/// The priority that `id` is routed to: that of its last entry in
/// `routes`, if any.
pub open spec fn route_prio(routes: Seq<(ActiveObjectId, u8)>, id: ActiveObjectId) -> Option<u8>
    decreases routes.len(),
{
    if routes.len() == 0 {
        None
    } else if routes.last().0 == id {
        Some(routes.last().1)
    } else {
        route_prio(routes.drop_last(), id)
    }
}

/// The events that delivering `msgs` in order through `routes` queues at
/// priority `p`; messages for unknown ids are dropped.
pub open spec fn deliveries(routes: Seq<(ActiveObjectId, u8)>, msgs: Seq<(ActiveObjectId, DynEvent)>, p: int) -> Seq<DynEvent>
    decreases msgs.len(),
{
    if msgs.len() == 0 {
        Seq::empty()
    } else {
        let rest = deliveries(routes, msgs.drop_last(), p);
        if route_prio(routes, msgs.last().0) matches Some(q) && q == p {
            rest.push(msgs.last().1)
        } else {
            rest
        }
    }
}

/// The last entry for `id` decides its route.
proof fn lemma_route_prio(routes: Seq<(ActiveObjectId, u8)>, id: ActiveObjectId, i: int, p: u8)
    requires
        0 <= i < routes.len(),
        routes[i] == (id, p),
        forall|j: int| i < j < routes.len() ==> (#[trigger] routes[j]).0 != id,
    ensures
        route_prio(routes, id) == Some(p),
    decreases routes.len(),
{
    if i < routes.len() - 1 {
        assert(routes.last() == routes[routes.len() - 1]);
        lemma_route_prio(routes.drop_last(), id, i, p);
    }
}

/// An id without an entry has no route.
proof fn lemma_route_none(routes: Seq<(ActiveObjectId, u8)>, id: ActiveObjectId)
    requires
        forall|i: int| 0 <= i < routes.len() ==> (#[trigger] routes[i]).0 != id,
    ensures
        route_prio(routes, id) is None,
    decreases routes.len(),
{
    if routes.len() > 0 {
        assert(routes.last() == routes[routes.len() - 1]);
        lemma_route_none(routes.drop_last(), id);
    }
}

/// Preemptive kernel.
///
/// Active objects send each other events through their context; the
/// kernel delivers them by id after each handler returns.
pub struct QkKernel<B: ActiveBehavior> {
    scheduler: QkScheduler,
    slots: Vec<Option<QkSlot<B>>>,
    id_to_prio: Vec<(ActiveObjectId, u8)>,
    ran: Ghost<Seq<(u8, DynEvent)>>,
}

impl<B: ActiveBehavior> QkKernel<B> {
    /// Well-formedness: one slot per priority, each registered object valid
    /// and at its own priority, ids routed to registered priorities.
    pub closed spec fn wf(&self) -> bool {
        &&& self.slots@.len() == PRIORITY_SLOTS
        &&& forall|p: int| 0 <= p < PRIORITY_SLOTS ==> (#[trigger] self.slots@[p] matches Some(s) ==> valid_slot(s) && s.obj().prio() == p)
        &&& forall|i: int| 0 <= i < self.id_to_prio@.len() ==> {
            let (id, p) = #[trigger] self.id_to_prio@[i];
            routes_to(self.slots@, id, p)
        }
    }

    /// Every activation so far, oldest first: the priority whose object ran
    /// and the event (the front of its queue) its behaviour was handed.
    pub closed spec fn runs(&self) -> Seq<(u8, DynEvent)> {
        self.ran@
    }

    /// The scheduler state.
    pub closed spec fn sched(&self) -> QkScheduler {
        self.scheduler
    }

    /// Registered objects by priority.
    pub closed spec fn slot_at(&self, p: int) -> Option<QkSlot<B>> {
        self.slots@[p]
    }

    /// Queue of the object at priority `p` (empty when none).
    pub open spec fn queue_at(&self, p: int) -> Seq<DynEvent> {
        match self.slot_at(p) {
            Some(s) => s.obj().queued(),
            None => Seq::empty(),
        }
    }

    /// Id routing table: each id with its priority, later entries winning.
    pub closed spec fn routes(&self) -> Seq<(ActiveObjectId, u8)> {
        self.id_to_prio@
    }

    /// A builder.
    pub fn builder() -> (b: QkKernelBuilder<B>)
        ensures
            b.regs() == Seq::<QkSlot<B>>::empty(),
    {
        QkKernelBuilder::new()
    }

    fn new(registrations: Vec<QkSlot<B>>) -> (r: Result<QkKernel<B>, QkKernelError>)
        requires
            forall|i: int| 0 <= i < registrations@.len() ==> valid_slot(#[trigger] registrations@[i]),
        ensures
            r matches Ok(k) ==> k.wf() && k.sched().active() == 0 && k.sched().threshold() == 0
                && forall|i: int, j: int| 0 <= i < j < registrations@.len() ==> registrations@[i].obj().prio() != registrations@[j].obj().prio(),
            r matches Err(e) ==> e matches QkKernelError::DuplicatePriority(p) && exists|i: int, j: int|
                0 <= i < j < registrations@.len() && registrations@[i].obj().prio() == p && registrations@[j].obj().prio() == p,
    {
        let mut slots: Vec<Option<QkSlot<B>>> = Vec::new();
        let mut k: usize = 0;
        while k < PRIORITY_SLOTS
            invariant
                k <= PRIORITY_SLOTS,
                slots@.len() == k,
                forall|p: int| 0 <= p < k ==> #[trigger] slots@[p] is None,
            decreases PRIORITY_SLOTS - k,
        {
            slots.push(None);
            k += 1;
        }
        let mut id_to_prio: Vec<(ActiveObjectId, u8)> = Vec::new();
        let mut regs = registrations;
        let total = regs.len();
        let ghost all = regs@;
        let mut taken: usize = 0;
        while regs.len() > 0
            invariant
                all == registrations@,
                total == all.len(),
                taken + regs@.len() == all.len(),
                regs@ == all.subrange(taken as int, all.len() as int),
                forall|i: int| 0 <= i < all.len() ==> valid_slot(#[trigger] all[i]),
                slots@.len() == PRIORITY_SLOTS,
                forall|p: int| 0 <= p < PRIORITY_SLOTS ==> (#[trigger] slots@[p] matches Some(s) ==> valid_slot(s) && s.obj().prio() == p),
                forall|p: int| 0 <= p < PRIORITY_SLOTS ==> (#[trigger] slots@[p] is Some <==> exists|i: int| 0 <= i < taken && all[i].obj().prio() == p),
                forall|i: int, j: int| 0 <= i < j < taken ==> all[i].obj().prio() != all[j].obj().prio(),
                forall|i: int| 0 <= i < id_to_prio@.len() ==> {
                    let (id, p) = #[trigger] id_to_prio@[i];
                    routes_to(slots@, id, p)
                },
            decreases regs@.len(),
        {
            let reg = regs.remove(0);
            proof {
                assert(reg == all[taken as int]);
                assert(regs@ =~= all.subrange(taken + 1, all.len() as int));
            }
            let prio = reg.object.priority();
            if slots[prio as usize].is_some() {
                proof {
                    let i = choose|i: int| 0 <= i < taken && all[i].obj().prio() == prio;
                    assert(all[i].obj().prio() == prio && all[taken as int].obj().prio() == prio);
                }
                return Err(QkKernelError::DuplicatePriority(prio));
            }
            let id = reg.object.id();
            let ghost before = slots@;
            slots.set(prio as usize, Some(reg));
            id_to_prio.push((id, prio));
            proof {
                assert forall|p: int| 0 <= p < PRIORITY_SLOTS implies (#[trigger] slots@[p] is Some <==> exists|i: int| 0 <= i < taken + 1 && all[i].obj().prio() == p) by {
                    if p == prio {
                        assert(all[taken as int].obj().prio() == p);
                    } else {
                        assert(slots@[p] == before[p]);
                        if exists|i: int| 0 <= i < taken + 1 && all[i].obj().prio() == p {
                            let i = choose|i: int| 0 <= i < taken + 1 && all[i].obj().prio() == p;
                            assert(i != taken);
                        }
                    }
                }
                assert forall|i: int, j: int| 0 <= i < j < taken + 1 implies all[i].obj().prio() != all[j].obj().prio() by {
                    if j == taken && all[i].obj().prio() == all[j].obj().prio() {
                        assert(before[prio as int] is Some);
                    }
                }
                assert forall|i: int| 0 <= i < id_to_prio@.len() implies {
                    let (id2, p) = #[trigger] id_to_prio@[i];
                    routes_to(slots@, id2, p)
                } by {
                    if i < id_to_prio@.len() - 1 {
                        let (id2, p) = id_to_prio@[i];
                        assert(before[p as int] is Some);
                        assert(p != prio);
                    }
                }
            }
            taken += 1;
        }
        let mut scheduler = QkScheduler::new();
        scheduler.configure_active(0, 0);
        Ok(QkKernel { scheduler, slots, id_to_prio, ran: Ghost(Seq::empty()) })
    }

    /// The scheduler.
    pub fn scheduler(&self) -> (s: &QkScheduler)
        ensures
            *s == self.sched(),
    {
        &self.scheduler
    }

    /// Records the running context's priority and preemption threshold.
    pub fn configure_active(&mut self, active_prio: u8, threshold: u8)
        ensures
            final(self).sched().active() == active_prio,
            final(self).sched().threshold() == threshold,
            final(self).sched().ceiling() == old(self).sched().ceiling(),
            final(self).sched().ready_set() == old(self).sched().ready_set(),
            forall|p: int| 0 <= p < PRIORITY_SLOTS ==> #[trigger] final(self).slot_at(p) == old(self).slot_at(p),
            final(self).routes() == old(self).routes(),
            final(self).wf() == old(self).wf(),
    {
        self.scheduler.configure_active(active_prio, threshold);
        assert(self.slots@ == old(self).slots@);
        assert(self.id_to_prio@ == old(self).id_to_prio@);
    }

    /// The registered object at priority `p`, if any.
    pub fn slot(&self, p: u8) -> (s: Option<&QkSlot<B>>)
        requires
            self.wf(),
            p < PRIORITY_SLOTS,
        ensures
            s matches Some(x) ==> self.slot_at(p as int) == Some(*x),
            s is None ==> self.slot_at(p as int) is None,
    {
        match &self.slots[p as usize] {
            Some(x) => Some(x),
            None => None,
        }
    }

    /// Raises the lock ceiling (see [`QkScheduler::lock`]).
    pub fn lock_scheduler(&mut self, ceiling: u8) -> (st: SchedStatus)
        ensures
            ceiling > old(self).sched().ceiling() ==> st == SchedStatus::Locked(old(self).sched().ceiling())
                && final(self).sched().ceiling() == ceiling,
            ceiling <= old(self).sched().ceiling() ==> st == SchedStatus::Unlocked
                && final(self).sched().ceiling() == old(self).sched().ceiling(),
            final(self).sched().ready_set() == old(self).sched().ready_set(),
            final(self).sched().active() == old(self).sched().active(),
            forall|p: int| 0 <= p < PRIORITY_SLOTS ==> #[trigger] final(self).slot_at(p) == old(self).slot_at(p),
            final(self).routes() == old(self).routes(),
            final(self).wf() == old(self).wf(),
    {
        let st = self.scheduler.lock(ceiling);
        assert(self.slots@ == old(self).slots@);
        assert(self.id_to_prio@ == old(self).id_to_prio@);
        st
    }

    /// Position in the routing table of the last entry for `id`.
    fn route_of(&self, id: ActiveObjectId) -> (r: Option<u8>)
        requires
            self.wf(),
        ensures
            r matches Some(p) ==> p < PRIORITY_SLOTS && self.slot_at(p as int) is Some && exists|i: int|
                0 <= i < self.routes().len() && self.routes()[i] == (id, p) && forall|j: int| i < j < self.routes().len() ==> (#[trigger] self.routes()[j]).0 != id,
            r is None ==> forall|i: int| 0 <= i < self.routes().len() ==> (#[trigger] self.routes()[i]).0 != id,
    {
        let n = self.id_to_prio.len();
        let mut k = n;
        while k > 0
            invariant
                self.wf(),
                n == self.id_to_prio@.len(),
                k <= n,
                forall|j: int| k <= j < n ==> (#[trigger] self.id_to_prio@[j]).0 != id,
            decreases k,
        {
            k -= 1;
            if self.id_to_prio[k].0 == id {
                let p = self.id_to_prio[k].1;
                proof {
                    assert(routes_to(self.slots@, self.id_to_prio@[k as int].0, self.id_to_prio@[k as int].1));
                    assert(self.routes()[k as int] == (id, p));
                }
                return Some(p);
            }
        }
        None
    }

    /// Queues `event` at priority `p` (registered), marking it ready when
    /// its queue was empty.
    fn post_at(&mut self, p: u8, event: DynEvent)
        requires
            old(self).wf(),
            p < PRIORITY_SLOTS,
            old(self).slot_at(p as int) is Some,
        ensures
            final(self).wf(),
            final(self).runs() == old(self).runs(),
            final(self).routes() == old(self).routes(),
            final(self).queue_at(p as int) == old(self).queue_at(p as int).push(event),
            forall|q: int| 0 <= q < PRIORITY_SLOTS && q != p ==> #[trigger] final(self).slot_at(q) == old(self).slot_at(q),
            final(self).slot_at(p as int) is Some,
            final(self).slot_at(p as int)->Some_0.obj().beh() == old(self).slot_at(p as int)->Some_0.obj().beh(),
            final(self).slot_at(p as int)->Some_0.obj().sent() == old(self).slot_at(p as int)->Some_0.obj().sent(),
            final(self).slot_at(p as int)->Some_0.obj().ident() == old(self).slot_at(p as int)->Some_0.obj().ident(),
            final(self).sched().ready_set() == (if old(self).queue_at(p as int).len() == 0 {
                old(self).sched().ready_set().insert(p)
            } else {
                old(self).sched().ready_set()
            }),
            final(self).sched().active() == old(self).sched().active(),
            final(self).sched().threshold() == old(self).sched().threshold(),
            final(self).sched().ceiling() == old(self).sched().ceiling(),
    {
        let ghost before = self.slots@;
        let taken = self.slots.remove(p as usize);
        let mut slot = match taken {
            Some(s) => s,
            None => {
                return;
            },
        };
        assert(slot == before[p as int]->Some_0);
        let was_empty = !slot.object.has_events();
        slot.object.post(event);
        self.slots.insert(p as usize, Some(slot));
        assert(self.slots@ =~= before.update(p as int, Some(slot)));
        if was_empty {
            self.scheduler.mark_ready(p);
        }
        proof {
            assert forall|q: int| 0 <= q < PRIORITY_SLOTS implies (#[trigger] self.slots@[q] matches Some(s) ==> valid_slot(s) && s.obj().prio() == q) by {
                if q != p {
                    assert(self.slots@[q] == before[q]);
                }
            }
            assert forall|i: int| 0 <= i < self.id_to_prio@.len() implies {
                let (id, q) = #[trigger] self.id_to_prio@[i];
                routes_to(self.slots@, id, q)
            } by {
                let (id, q) = self.id_to_prio@[i];
                if q as int != p as int {
                    assert(self.slots@[q as int] == before[q as int]);
                }
            }
        }
    }

    /// Queues `event` for the object with id `target` (the last registered
    /// under that id), marking it ready when its queue was empty; fails
    /// when no object has the id.
    pub fn post(&mut self, target: ActiveObjectId, event: DynEvent) -> (r: Result<(), QkKernelError>)
        requires
            old(self).wf(),
        ensures
            final(self).wf(),
            final(self).runs() == old(self).runs(),
            forall|q: int| 0 <= q < PRIORITY_SLOTS && old(self).slot_at(q) is Some ==> (#[trigger] final(self).slot_at(q))->Some_0.obj().beh()
                == old(self).slot_at(q)->Some_0.obj().beh() && final(self).slot_at(q)->Some_0.obj().sent() == old(self).slot_at(q)->Some_0.obj().sent(),
            final(self).routes() == old(self).routes(),
            forall|q: int| 0 <= q < PRIORITY_SLOTS ==> (#[trigger] final(self).slot_at(q)) is Some == old(self).slot_at(q) is Some,
            final(self).sched().active() == old(self).sched().active(),
            final(self).sched().threshold() == old(self).sched().threshold(),
            final(self).sched().ceiling() == old(self).sched().ceiling(),
            r is Err ==> r == Err::<(), QkKernelError>(QkKernelError::NotFound(target))
                && (forall|i: int| 0 <= i < old(self).routes().len() ==> (#[trigger] old(self).routes()[i]).0 != target)
                && (forall|q: int| 0 <= q < PRIORITY_SLOTS ==> #[trigger] final(self).slot_at(q) == old(self).slot_at(q))
                && final(self).sched().ready_set() == old(self).sched().ready_set(),
            r is Ok ==> exists|p: u8| {
                &&& p < PRIORITY_SLOTS
                &&& exists|i: int| 0 <= i < old(self).routes().len() && old(self).routes()[i] == (target, p)
                    && forall|j: int| i < j < old(self).routes().len() ==> (#[trigger] old(self).routes()[j]).0 != target
                &&& final(self).queue_at(p as int) == old(self).queue_at(p as int).push(event)
                &&& forall|q: int| 0 <= q < PRIORITY_SLOTS && q != p ==> #[trigger] final(self).slot_at(q) == old(self).slot_at(q)
                &&& final(self).sched().ready_set() == (if old(self).queue_at(p as int).len() == 0 {
                    old(self).sched().ready_set().insert(p)
                } else {
                    old(self).sched().ready_set()
                })
            },
    {
        match self.route_of(target) {
            Some(p) => {
                self.post_at(p, event);
                Ok(())
            },
            None => Err(QkKernelError::NotFound(target)),
        }
    }

    /// Delivers events sent by a handler; those for unknown ids are dropped.
    fn route(&mut self, msgs: Vec<(ActiveObjectId, DynEvent)>)
        requires
            old(self).wf(),
        ensures
            final(self).wf(),
            final(self).runs() == old(self).runs(),
            final(self).routes() == old(self).routes(),
            forall|q: int| 0 <= q < PRIORITY_SLOTS ==> (#[trigger] final(self).slot_at(q)) is Some == old(self).slot_at(q) is Some,
            forall|q: int| 0 <= q < PRIORITY_SLOTS ==> #[trigger] final(self).queue_at(q) == old(self).queue_at(q) + deliveries(
                old(self).routes(),
                msgs@,
                q,
            ),
            forall|q: int| 0 <= q < PRIORITY_SLOTS && old(self).slot_at(q) is Some ==> (#[trigger] final(self).slot_at(q))->Some_0.obj().beh()
                == old(self).slot_at(q)->Some_0.obj().beh() && final(self).slot_at(q)->Some_0.obj().sent() == old(self).slot_at(q)->Some_0.obj().sent(),
            final(self).sched().ready_set() == old(self).sched().ready_set().union(
                Set::new(|q: u8| q < PRIORITY_SLOTS && old(self).queue_at(q as int).len() == 0 && deliveries(old(self).routes(), msgs@, q as int).len() > 0),
            ),
            final(self).sched().active() == old(self).sched().active(),
            final(self).sched().threshold() == old(self).sched().threshold(),
            final(self).sched().ceiling() == old(self).sched().ceiling(),
    {
        let n = msgs.len();
        let mut k: usize = 0;
        let ghost routes = old(self).routes();
        proof {
            assert forall|q: int| 0 <= q < PRIORITY_SLOTS implies #[trigger] self.queue_at(q) == old(self).queue_at(q) + deliveries(
                routes,
                msgs@.subrange(0, 0),
                q,
            ) by {
                assert(self.queue_at(q) =~= old(self).queue_at(q) + deliveries(routes, msgs@.subrange(0, 0), q));
            }
            assert(self.sched().ready_set() =~= old(self).sched().ready_set().union(
                Set::new(|q: u8| q < PRIORITY_SLOTS && old(self).queue_at(q as int).len() == 0 && deliveries(routes, msgs@.subrange(0, 0), q as int).len() > 0),
            ));
        }
        while k < n
            invariant
                self.wf(),
                n == msgs@.len(),
                k <= n,
                routes == old(self).routes(),
                self.routes() == old(self).routes(),
                forall|q: int| 0 <= q < PRIORITY_SLOTS ==> (#[trigger] self.slot_at(q)) is Some == old(self).slot_at(q) is Some,
                forall|q: int| 0 <= q < PRIORITY_SLOTS ==> #[trigger] self.queue_at(q) == old(self).queue_at(q) + deliveries(
                    routes,
                    msgs@.subrange(0, k as int),
                    q,
                ),
                forall|q: int| 0 <= q < PRIORITY_SLOTS && old(self).slot_at(q) is Some ==> (#[trigger] self.slot_at(q))->Some_0.obj().beh()
                    == old(self).slot_at(q)->Some_0.obj().beh() && self.slot_at(q)->Some_0.obj().sent() == old(self).slot_at(q)->Some_0.obj().sent(),
                self.sched().ready_set() == old(self).sched().ready_set().union(
                    Set::new(|q: u8| q < PRIORITY_SLOTS && old(self).queue_at(q as int).len() == 0 && deliveries(routes, msgs@.subrange(0, k as int), q as int).len() > 0),
                ),
                self.sched().active() == old(self).sched().active(),
                self.sched().threshold() == old(self).sched().threshold(),
                self.sched().ceiling() == old(self).sched().ceiling(),
                self.runs() == old(self).runs(),
            decreases n - k,
        {
            let ghost s0 = *self;
            let ghost pre = msgs@.subrange(0, k as int);
            let ghost next = msgs@.subrange(0, k + 1);
            assert(next.drop_last() =~= pre);
            assert(next.last() == msgs@[k as int]);
            let target = msgs[k].0;
            let event = msgs[k].1.retarget(msgs[k].1.header.signal);
            assert(event == msgs@[k as int].1);
            let r = self.post(target, event);
            proof {
                match r {
                    Ok(()) => {
                        let p = choose|p: u8| {
                            &&& p < PRIORITY_SLOTS
                            &&& exists|i: int| 0 <= i < s0.routes().len() && s0.routes()[i] == (target, p)
                                && forall|j: int| i < j < s0.routes().len() ==> (#[trigger] s0.routes()[j]).0 != target
                            &&& self.queue_at(p as int) == s0.queue_at(p as int).push(event)
                            &&& forall|q: int| 0 <= q < PRIORITY_SLOTS && q != p ==> #[trigger] self.slot_at(q) == s0.slot_at(q)
                            &&& self.sched().ready_set() == (if s0.queue_at(p as int).len() == 0 {
                                s0.sched().ready_set().insert(p)
                            } else {
                                s0.sched().ready_set()
                            })
                        };
                        let i = choose|i: int| 0 <= i < s0.routes().len() && s0.routes()[i] == (target, p)
                            && forall|j: int| i < j < s0.routes().len() ==> (#[trigger] s0.routes()[j]).0 != target;
                        lemma_route_prio(routes, target, i, p);
                        assert forall|q: int| 0 <= q < PRIORITY_SLOTS implies #[trigger] self.queue_at(q) == old(self).queue_at(q)
                            + deliveries(routes, next, q) by {
                            assert(s0.queue_at(q) == old(self).queue_at(q) + deliveries(routes, pre, q));
                            if q == p {
                                assert(deliveries(routes, next, q) == deliveries(routes, pre, q).push(event));
                                assert(self.queue_at(q) =~= old(self).queue_at(q) + deliveries(routes, next, q));
                            } else {
                                assert(self.slot_at(q) == s0.slot_at(q));
                                assert(deliveries(routes, next, q) == deliveries(routes, pre, q));
                            }
                        }
                        assert(self.sched().ready_set() =~= old(self).sched().ready_set().union(
                            Set::new(|q: u8| q < PRIORITY_SLOTS && old(self).queue_at(q as int).len() == 0 && deliveries(routes, next, q as int).len() > 0),
                        )) by {
                            assert(s0.queue_at(p as int).len() == old(self).queue_at(p as int).len() + deliveries(routes, pre, p as int).len());
                            assert forall|q: u8| #![trigger deliveries(routes, next, q as int)]
                                q != p implies deliveries(routes, next, q as int) == deliveries(routes, pre, q as int) by {}
                        }
                    },
                    Err(_) => {
                        lemma_route_none(routes, target);
                        assert forall|q: int| 0 <= q < PRIORITY_SLOTS implies #[trigger] self.queue_at(q) == old(self).queue_at(q)
                            + deliveries(routes, next, q) by {
                            assert(s0.queue_at(q) == old(self).queue_at(q) + deliveries(routes, pre, q));
                            assert(self.slot_at(q) == s0.slot_at(q));
                            assert(deliveries(routes, next, q) == deliveries(routes, pre, q));
                        }
                        assert(self.sched().ready_set() =~= old(self).sched().ready_set().union(
                            Set::new(|q: u8| q < PRIORITY_SLOTS && old(self).queue_at(q as int).len() == 0 && deliveries(routes, next, q as int).len() > 0),
                        )) by {
                            assert forall|q: u8| #![trigger deliveries(routes, next, q as int)]
                                true implies deliveries(routes, next, q as int) == deliveries(routes, pre, q as int) by {}
                        }
                    },
                }
            }
            k += 1;
        }
        assert(msgs@.subrange(0, n as int) =~= msgs@);
    }

    /// Queues a copy of `event` with signal `signal` for every registered
    /// object, in ascending priority, marking those whose queue was empty
    /// ready.
    pub fn publish(&mut self, signal: Signal, event: DynEvent)
        requires
            old(self).wf(),
        ensures
            final(self).wf(),
            final(self).routes() == old(self).routes(),
            forall|p: int| 0 <= p < PRIORITY_SLOTS ==> (#[trigger] final(self).slot_at(p)) is Some == old(self).slot_at(p) is Some,
            forall|p: int| 0 <= p < PRIORITY_SLOTS && old(self).slot_at(p) is Some ==> #[trigger] final(self).queue_at(p)
                == old(self).queue_at(p).push(retargeted(event, signal)),
            final(self).sched().ready_set() == old(self).sched().ready_set().union(
                Set::new(|p: u8| p < PRIORITY_SLOTS && old(self).slot_at(p as int) is Some && old(self).queue_at(p as int).len() == 0),
            ),
            final(self).sched().active() == old(self).sched().active(),
            final(self).sched().threshold() == old(self).sched().threshold(),
            final(self).sched().ceiling() == old(self).sched().ceiling(),
    {
        let mut p: u8 = 0;
        while (p as usize) < PRIORITY_SLOTS
            invariant
                self.wf(),
                p <= PRIORITY_SLOTS,
                self.routes() == old(self).routes(),
                forall|q: int| 0 <= q < PRIORITY_SLOTS ==> (#[trigger] self.slot_at(q)) is Some == old(self).slot_at(q) is Some,
                forall|q: int| 0 <= q < p && old(self).slot_at(q) is Some ==> #[trigger] self.queue_at(q)
                    == old(self).queue_at(q).push(retargeted(event, signal)),
                forall|q: int| p <= q < PRIORITY_SLOTS ==> #[trigger] self.slot_at(q) == old(self).slot_at(q),
                self.sched().ready_set() == old(self).sched().ready_set().union(
                    Set::new(|q: u8| q < p && old(self).slot_at(q as int) is Some && old(self).queue_at(q as int).len() == 0),
                ),
                self.sched().active() == old(self).sched().active(),
                self.sched().threshold() == old(self).sched().threshold(),
                self.sched().ceiling() == old(self).sched().ceiling(),
            decreases PRIORITY_SLOTS - p,
        {
            let ghost s0 = *self;
            if self.slots[p as usize].is_some() {
                let copy = event.retarget(signal);
                assert(copy == retargeted(event, signal));
                self.post_at(p, copy);
            }
            proof {
                assert forall|q: int| 0 <= q < p + 1 && old(self).slot_at(q) is Some implies #[trigger] self.queue_at(q)
                    == old(self).queue_at(q).push(retargeted(event, signal)) by {
                    if q < p {
                        assert(self.slot_at(q) == s0.slot_at(q));
                        assert(s0.queue_at(q) == old(self).queue_at(q).push(retargeted(event, signal)));
                    } else {
                        assert(s0.slot_at(q) == old(self).slot_at(q));
                    }
                }
                let next = Set::new(|q: u8| q < p + 1 && old(self).slot_at(q as int) is Some && old(self).queue_at(q as int).len() == 0);
                let prev = Set::new(|q: u8| q < p && old(self).slot_at(q as int) is Some && old(self).queue_at(q as int).len() == 0);
                assert(self.sched().ready_set() =~= old(self).sched().ready_set().union(next)) by {
                    if old(self).slot_at(p as int) is Some && old(self).queue_at(p as int).len() == 0 {
                        assert(next =~= prev.insert(p));
                    } else {
                        assert(next =~= prev);
                    }
                }
            }
            p = p + 1;
        }
        proof {
            assert(Set::new(|q: u8| q < 64u8 && old(self).slot_at(q as int) is Some && old(self).queue_at(q as int).len() == 0)
                =~= Set::new(|q: u8| q < PRIORITY_SLOTS && old(self).slot_at(q as int) is Some && old(self).queue_at(q as int).len() == 0));
        }
    }

    /// Starts every registered object in ascending priority, delivering
    /// what each sends, and marks those with queued events ready.
    pub fn start(&mut self)
        requires
            old(self).wf(),
        ensures
            final(self).wf(),
            final(self).routes() == old(self).routes(),
            forall|p: int| 0 <= p < PRIORITY_SLOTS ==> (#[trigger] final(self).slot_at(p)) is Some == old(self).slot_at(p) is Some,
            forall|p: int| 0 <= p < PRIORITY_SLOTS ==> old(self).queue_at(p).is_prefix_of(#[trigger] final(self).queue_at(p)),
            final(self).sched().ready_set() == old(self).sched().ready_set().union(
                Set::new(|q: u8| q < PRIORITY_SLOTS && final(self).queue_at(q as int).len() > 0),
            ),
            final(self).sched().active() == old(self).sched().active(),
            final(self).sched().threshold() == old(self).sched().threshold(),
            final(self).sched().ceiling() == old(self).sched().ceiling(),
    {
        let mut p: u8 = 0;
        proof {
            assert forall|q: int| 0 <= q < PRIORITY_SLOTS implies old(self).queue_at(q).is_prefix_of(#[trigger] self.queue_at(q)) by {
                assert(self.queue_at(q).subrange(0, self.queue_at(q).len() as int) =~= self.queue_at(q));
            }
            assert(self.sched().ready_set() =~= old(self).sched().ready_set().union(
                Set::new(|q: u8| q < PRIORITY_SLOTS && self.queue_at(q as int).len() > 0 && (q < 0 || old(self).queue_at(q as int).len() == 0)),
            )) by {
                assert forall|q: u8| q < PRIORITY_SLOTS && self.queue_at(q as int).len() > 0 implies !(old(self).queue_at(q as int).len() == 0) by {}
            }
        }
        while (p as usize) < PRIORITY_SLOTS
            invariant
                self.wf(),
                p <= PRIORITY_SLOTS,
                self.routes() == old(self).routes(),
                forall|q: int| 0 <= q < PRIORITY_SLOTS ==> (#[trigger] self.slot_at(q)) is Some == old(self).slot_at(q) is Some,
                forall|q: int| 0 <= q < PRIORITY_SLOTS ==> old(self).queue_at(q).is_prefix_of(#[trigger] self.queue_at(q)),
                self.sched().ready_set() == old(self).sched().ready_set().union(
                    Set::new(|q: u8| q < PRIORITY_SLOTS && self.queue_at(q as int).len() > 0 && (q < p || old(self).queue_at(q as int).len() == 0)),
                ),
                self.sched().active() == old(self).sched().active(),
                self.sched().threshold() == old(self).sched().threshold(),
                self.sched().ceiling() == old(self).sched().ceiling(),
            decreases PRIORITY_SLOTS - p,
        {
            let ghost s0 = *self;
            let msgs = self.start_at(p);
            let ghost s1 = *self;
            self.route(msgs);
            let ghost s2 = *self;
            let ready = match &self.slots[p as usize] {
                Some(slot) => slot.object.has_events(),
                None => false,
            };
            let ghost mid = self.slots@;
            if ready {
                self.scheduler.mark_ready(p);
            }
            assert(self.slots@ == mid);
            proof {
                assert forall|q: int| 0 <= q < PRIORITY_SLOTS implies (#[trigger] self.slot_at(q)) is Some == old(self).slot_at(q) is Some by {
                    assert(self.slot_at(q) == s2.slot_at(q));
                    assert(s2.slot_at(q) is Some == s1.slot_at(q) is Some);
                    assert(s1.slot_at(q) is Some == s0.slot_at(q) is Some);
                }
                assert forall|q: int| 0 <= q < PRIORITY_SLOTS implies old(self).queue_at(q).is_prefix_of(#[trigger] self.queue_at(q)) by {
                    assert(self.queue_at(q) == s2.queue_at(q));
                    assert(s1.queue_at(q) == s0.queue_at(q));
                    assert(s2.queue_at(q) == s1.queue_at(q) + deliveries(s1.routes(), msgs@, q));
                    assert(old(self).queue_at(q).is_prefix_of(s0.queue_at(q)));
                    assert(old(self).queue_at(q) =~= self.queue_at(q).subrange(0, old(self).queue_at(q).len() as int));
                }
                assert(ready == (self.queue_at(p as int).len() > 0));
                assert(self.sched().ready_set() =~= old(self).sched().ready_set().union(
                    Set::new(|q: u8| q < PRIORITY_SLOTS && self.queue_at(q as int).len() > 0 && (q < p + 1 || old(self).queue_at(q as int).len() == 0)),
                )) by {
                    assert forall|q: u8| q < PRIORITY_SLOTS implies #[trigger] self.queue_at(q as int) == s2.queue_at(q as int)
                        && s2.queue_at(q as int) == s0.queue_at(q as int) + deliveries(s1.routes(), msgs@, q as int)
                        && old(self).queue_at(q as int).len() <= s0.queue_at(q as int).len() by {
                        assert(s1.queue_at(q as int) == s0.queue_at(q as int));
                        assert(old(self).queue_at(q as int).is_prefix_of(s0.queue_at(q as int)));
                    }
                }
            }
            p = p + 1;
        }
        proof {
            assert(self.sched().ready_set() =~= old(self).sched().ready_set().union(
                Set::new(|q: u8| q < PRIORITY_SLOTS && self.queue_at(q as int).len() > 0),
            ));
        }
    }

    /// Starts the object at priority `p` (if any), returning what it sent.
    fn start_at(&mut self, p: u8) -> (msgs: Vec<(ActiveObjectId, DynEvent)>)
        requires
            old(self).wf(),
            p < PRIORITY_SLOTS,
        ensures
            final(self).wf(),
            final(self).routes() == old(self).routes(),
            forall|q: int| 0 <= q < PRIORITY_SLOTS ==> (#[trigger] final(self).slot_at(q)) is Some == old(self).slot_at(q) is Some,
            forall|q: int| 0 <= q < PRIORITY_SLOTS ==> #[trigger] final(self).queue_at(q) == old(self).queue_at(q),
            final(self).sched() == old(self).sched(),
            old(self).slot_at(p as int) is None ==> msgs@ == Seq::<(ActiveObjectId, DynEvent)>::empty(),
            old(self).slot_at(p as int) matches Some(s) ==> s.obj().sent().is_prefix_of(msgs@)
                && final(self).slot_at(p as int)->Some_0.obj().sent() == Seq::<(ActiveObjectId, DynEvent)>::empty(),
            old(self).slot_at(p as int) matches Some(s) ==> exists|c0: ActiveContext, c1: ActiveContext|
                #![trigger s.obj().beh().start_spec(c0, final(self).slot_at(p as int)->Some_0.obj().beh(), c1)]
                {
                    &&& c0.owner() == s.obj().ident()
                    &&& c0.sent() == Seq::<(ActiveObjectId, DynEvent)>::empty()
                    &&& s.obj().beh().start_spec(c0, final(self).slot_at(p as int)->Some_0.obj().beh(), c1)
                    &&& msgs@ == s.obj().sent() + c1.sent()
                },
    {
        let ghost before = self.slots@;
        let taken = self.slots.remove(p as usize);
        match taken {
            Some(mut slot) => {
                assert(slot == before[p as int]->Some_0);
                slot.object.start();
                let msgs = slot.object.take_sent();
                self.slots.insert(p as usize, Some(slot));
                proof {
                    assert(self.slots@ =~= before.update(p as int, Some(slot)));
                    self.lemma_wf_after_update(before, p as int);
                    assert forall|q: int| 0 <= q < PRIORITY_SLOTS implies #[trigger] self.queue_at(q) == old(self).queue_at(q) by {
                        if q != p {
                            assert(self.slots@[q] == before[q]);
                        }
                    }
                }
                msgs
            },
            None => {
                self.slots.insert(p as usize, None);
                assert(self.slots@ =~= before);
                Vec::new()
            },
        }
    }

    /// Replacing slot `p` by an object valid at the same priority with the
    /// same id keeps the kernel well-formed.
    proof fn lemma_wf_after_update(&self, before: Seq<Option<QkSlot<B>>>, p: int)
        requires
            0 <= p < PRIORITY_SLOTS,
            before.len() == PRIORITY_SLOTS,
            self.slots@.len() == PRIORITY_SLOTS,
            forall|q: int| 0 <= q < PRIORITY_SLOTS ==> (#[trigger] before[q] matches Some(s) ==> valid_slot(s) && s.obj().prio() == q),
            forall|i: int| 0 <= i < self.id_to_prio@.len() ==> {
                let (id, q) = #[trigger] self.id_to_prio@[i];
                routes_to(before, id, q)
            },
            before[p] is Some,
            self.slots@[p] is Some,
            valid_slot(self.slots@[p]->Some_0),
            self.slots@[p]->Some_0.obj().prio() == p,
            self.slots@[p]->Some_0.obj().ident() == before[p]->Some_0.obj().ident(),
            forall|q: int| 0 <= q < PRIORITY_SLOTS && q != p ==> self.slots@[q] == before[q],
        ensures
            self.wf(),
    {
        assert forall|q: int| 0 <= q < PRIORITY_SLOTS implies (#[trigger] self.slots@[q] matches Some(s) ==> valid_slot(s) && s.obj().prio() == q) by {
            if q != p {
                assert(self.slots@[q] == before[q]);
            }
        }
        assert forall|i: int| 0 <= i < self.id_to_prio@.len() implies {
            let (id, q) = #[trigger] self.id_to_prio@[i];
            routes_to(self.slots@, id, q)
        } by {
            let (id, q) = self.id_to_prio@[i];
            assert(routes_to(before, id, q));
            if q as int != p {
                assert(self.slots@[q as int] == before[q as int]);
            }
        }
    }

    /// The running context is the idle one or a registered object.
    pub open spec fn active_registered(&self) -> bool {
        self.sched().active() == 0 || (self.sched().active() < PRIORITY_SLOTS && self.slot_at(
            self.sched().active() as int,
        ) is Some)
    }

    /// Preemption threshold of priority `prio` (see [`QkKernel::threshold_for`]).
    pub open spec fn thr_of(&self, prio: u8) -> u8 {
        if prio == 0 || prio as int >= PRIORITY_SLOTS || self.slot_at(prio as int) is None {
            0u8
        } else {
            self.slot_at(prio as int)->Some_0.thr()
        }
    }

    /// Preemption threshold of priority `prio`: 0 for the idle context,
    /// else that of the object registered at `prio`.
    pub fn threshold_for(&self, prio: u8) -> (t: u8)
        requires
            self.wf(),
            prio == 0 || (prio < PRIORITY_SLOTS && self.slot_at(prio as int) is Some),
        ensures
            t == self.thr_of(prio),
    {
        if prio == 0 || prio as usize >= PRIORITY_SLOTS {
            return 0;
        }
        match &self.slots[prio as usize] {
            Some(slot) => slot.threshold,
            None => 0,
        }
    }

    /// Queue at priority `q` once the object at `p` took its front event.
    pub open spec fn taken_front(&self, q: int, p: int) -> Seq<DynEvent> {
        if q == p && self.queue_at(p).len() > 0 {
            self.queue_at(p).drop_first()
        } else {
            self.queue_at(q)
        }
    }

    /// `after` is `self` once the object at `p` handled its front event and
    /// what it sent, `msgs`, was delivered; `p` stays ready while events
    /// are queued for it.
    pub open spec fn ran_front(self, after: Self, p: u8, msgs: Seq<(ActiveObjectId, DynEvent)>) -> bool {
        &&& forall|q: int| 0 <= q < PRIORITY_SLOTS ==> #[trigger] after.queue_at(q) == self.taken_front(q, p as int) + deliveries(
            self.routes(),
            msgs,
            q,
        )
        &&& after.sched().ready_set() == ({
            let r = self.sched().ready_set().union(
                Set::new(|q: u8| q < PRIORITY_SLOTS && self.taken_front(q as int, p as int).len() == 0 && deliveries(self.routes(), msgs, q as int).len() > 0),
            );
            if after.queue_at(p as int).len() == 0 {
                r.remove(p)
            } else {
                r
            }
        })
    }

    /// Runs the object at priority `p` on its front event and delivers what
    /// it sends; clears its ready flag when its queue is then empty.
    fn run_one(&mut self, p: u8)
        requires
            old(self).wf(),
            p < PRIORITY_SLOTS,
            old(self).slot_at(p as int) is Some,
        ensures
            exists|msgs: Seq<(ActiveObjectId, DynEvent)>| #[trigger] old(self).ran_front(*final(self), p, msgs),
            old(self).queue_at(p as int).len() > 0 ==> exists|c0: ActiveContext, c1: ActiveContext|
                #![trigger old(self).slot_at(p as int)->Some_0.obj().beh().event_spec(c0, old(self).queue_at(p as int)[0], final(self).slot_at(p as int)->Some_0.obj().beh(), c1)]
                {
                    &&& c0.owner() == old(self).slot_at(p as int)->Some_0.obj().ident()
                    &&& c0.sent() == Seq::<(ActiveObjectId, DynEvent)>::empty()
                    &&& old(self).slot_at(p as int)->Some_0.obj().beh().event_spec(
                        c0,
                        old(self).queue_at(p as int)[0],
                        final(self).slot_at(p as int)->Some_0.obj().beh(),
                        c1,
                    )
                    &&& old(self).ran_front(*final(self), p, old(self).slot_at(p as int)->Some_0.obj().sent() + c1.sent())
                },
            old(self).queue_at(p as int).len() == 0 ==> final(self).slot_at(p as int)->Some_0.obj().beh() == old(self).slot_at(
                p as int,
            )->Some_0.obj().beh() && old(self).ran_front(*final(self), p, old(self).slot_at(p as int)->Some_0.obj().sent()),
            final(self).wf(),
            final(self).routes() == old(self).routes(),
            forall|q: int| 0 <= q < PRIORITY_SLOTS ==> (#[trigger] final(self).slot_at(q)) is Some == old(self).slot_at(q) is Some,
            final(self).sched().active() == old(self).sched().active(),
            final(self).sched().threshold() == old(self).sched().threshold(),
            final(self).sched().ceiling() == old(self).sched().ceiling(),
            final(self).runs() == (if old(self).queue_at(p as int).len() > 0 {
                old(self).runs().push((p, old(self).queue_at(p as int)[0]))
            } else {
                old(self).runs()
            }),
    {
        let ghost before = self.slots@;
        let taken = self.slots.remove(p as usize);
        let mut slot = match taken {
            Some(s) => s,
            None => {
                return;
            },
        };
        assert(slot == before[p as int]->Some_0);
        let ghost o0 = slot.object;
        let ran = slot.object.dispatch_one();
        if ran {
            self.ran = Ghost(self.ran@.push((p, o0.queued()[0])));
        }
        let ghost o1 = slot.object;
        let msgs = slot.object.take_sent();
        self.slots.insert(p as usize, Some(slot));
        proof {
            assert(self.slots@ =~= before.update(p as int, Some(slot)));
            self.lemma_wf_after_update(before, p as int);
            assert forall|q: int| 0 <= q < PRIORITY_SLOTS implies #[trigger] self.queue_at(q) == old(self).taken_front(q, p as int) by {
                if q != p {
                    assert(self.slots@[q] == before[q]);
                }
            }
        }
        let ghost s1 = *self;
        self.route(msgs);
        let ghost s2 = *self;
        let empty = match &self.slots[p as usize] {
            Some(slot) => !slot.object.has_events(),
            None => false,
        };
        if empty {
            self.scheduler.mark_not_ready(p);
        }
        proof {
            assert(empty == (self.queue_at(p as int).len() == 0));
            assert forall|q: int| 0 <= q < PRIORITY_SLOTS implies #[trigger] self.queue_at(q) == old(self).taken_front(q, p as int)
                + deliveries(old(self).routes(), msgs@, q) by {
                assert(self.slot_at(q) == s2.slot_at(q));
                assert(s1.queue_at(q) == old(self).taken_front(q, p as int));
                assert(s1.routes() == old(self).routes());
                assert(s2.queue_at(q) == s1.queue_at(q) + deliveries(s1.routes(), msgs@, q));
            }
            assert(s1.sched().ready_set() == old(self).sched().ready_set());
            assert(Set::new(|q: u8| q < PRIORITY_SLOTS && s1.queue_at(q as int).len() == 0 && deliveries(s1.routes(), msgs@, q as int).len() > 0)
                =~= Set::new(|q: u8| q < PRIORITY_SLOTS && old(self).taken_front(q as int, p as int).len() == 0 && deliveries(old(self).routes(), msgs@, q as int).len() > 0)) by {
                assert forall|q: u8| q < PRIORITY_SLOTS implies #[trigger] s1.queue_at(q as int) == old(self).taken_front(q as int, p as int) by {}
            }
            assert(old(self).ran_front(*self, p, msgs@));
            assert(s1.slot_at(p as int)->Some_0.obj().beh() == o1.beh());
            assert(s2.slot_at(p as int)->Some_0.obj().beh() == s1.slot_at(p as int)->Some_0.obj().beh());
            assert(self.slot_at(p as int) == s2.slot_at(p as int));
            assert(self.slot_at(p as int)->Some_0.obj().beh() == o1.beh());
            assert(msgs@ == o1.sent());
            assert(o0 == old(self).slot_at(p as int)->Some_0.obj());
            if ran {
                let (c0, c1) = choose|c0: ActiveContext, c1: ActiveContext| {
                    &&& c0.owner() == o0.ident()
                    &&& c0.sent() == Seq::<(ActiveObjectId, DynEvent)>::empty()
                    &&& o0.beh().event_spec(c0, o0.queued()[0], o1.beh(), c1)
                    &&& o1.sent() == o0.sent() + c1.sent()
                };
                assert(old(self).slot_at(p as int)->Some_0.obj().beh().event_spec(
                    c0,
                    old(self).queue_at(p as int)[0],
                    self.slot_at(p as int)->Some_0.obj().beh(),
                    c1,
                ));
            }
            assert forall|q: int| 0 <= q < PRIORITY_SLOTS implies (#[trigger] self.slot_at(q)) is Some == old(self).slot_at(q) is Some by {
                assert(self.slot_at(q) == s2.slot_at(q));
                assert(s2.slot_at(q) is Some == s1.slot_at(q) is Some);
                if q != p {
                    assert(s1.slots@[q] == before[q]);
                }
            }
        }
    }

    /// Runs the preemption chain starting with `initial`: each planned
    /// object handles one event, then the next is planned against the
    /// threshold of the context that was running; finally that context is
    /// restored (after at most [`MAX_ACTIVATIONS`] activations).
    fn activate(&mut self, initial: ScheduleDecision)
        requires
            old(self).wf(),
            initial.previous_prio == 0 || (initial.previous_prio < PRIORITY_SLOTS && old(self).slot_at(
                initial.previous_prio as int,
            ) is Some),
        ensures
            final(self).wf(),
            final(self).routes() == old(self).routes(),
            forall|q: int| 0 <= q < PRIORITY_SLOTS ==> (#[trigger] final(self).slot_at(q)) is Some == old(self).slot_at(q) is Some,
            final(self).sched().active() == initial.previous_prio,
            final(self).sched().threshold() == old(self).thr_of(initial.previous_prio),
            final(self).sched().ceiling() == old(self).sched().ceiling(),
            final(self).runs().len() >= old(self).runs().len(),
            final(self).runs().subrange(0, old(self).runs().len() as int) == old(self).runs(),
            initial.next_prio < PRIORITY_SLOTS && old(self).queue_at(initial.next_prio as int).len() > 0 ==> final(self).runs().len()
                > old(self).runs().len() && final(self).runs()[old(self).runs().len() as int] == (
                initial.next_prio,
                old(self).queue_at(initial.next_prio as int)[0],
            ),
    {
        let ghost first_ok = initial.next_prio < PRIORITY_SLOTS && old(self).queue_at(initial.next_prio as int).len() > 0;
        let ghost l0 = old(self).runs().len() as int;
        assert(self.runs().subrange(0, l0) =~= old(self).runs());
        let restore_prio = initial.previous_prio;
        let restore_threshold = self.threshold_for(restore_prio);
        let mut decision = initial;
        let mut count: usize = 0;
        loop
            invariant_except_break
                count < MAX_ACTIVATIONS,
            invariant
                self.wf(),
                self.routes() == old(self).routes(),
                forall|q: int| 0 <= q < PRIORITY_SLOTS ==> (#[trigger] self.slot_at(q)) is Some == old(self).slot_at(q) is Some,
                self.sched().ceiling() == old(self).sched().ceiling(),
                restore_threshold == old(self).thr_of(restore_prio),
                restore_prio == initial.previous_prio,
                l0 == old(self).runs().len(),
                first_ok == (initial.next_prio < PRIORITY_SLOTS && old(self).queue_at(initial.next_prio as int).len() > 0),
                self.runs().len() >= l0,
                self.runs().subrange(0, l0) == old(self).runs(),
                count == 0 ==> decision == initial && self.slots@ == old(self).slots@ && self.runs() == old(self).runs(),
                count > 0 && first_ok ==> self.runs().len() > l0 && self.runs()[l0] == (
                    initial.next_prio,
                    old(self).queue_at(initial.next_prio as int)[0],
                ),
            ensures
                self.wf(),
                self.routes() == old(self).routes(),
                forall|q: int| 0 <= q < PRIORITY_SLOTS ==> (#[trigger] self.slot_at(q)) is Some == old(self).slot_at(q) is Some,
                self.sched().active() == initial.previous_prio,
                self.sched().threshold() == old(self).thr_of(initial.previous_prio),
                self.sched().ceiling() == old(self).sched().ceiling(),
                self.runs().len() >= l0,
                self.runs().subrange(0, l0) == old(self).runs(),
                first_ok ==> self.runs().len() > l0 && self.runs()[l0] == (
                    initial.next_prio,
                    old(self).queue_at(initial.next_prio as int)[0],
                ),
            decreases MAX_ACTIVATIONS - count,
        {
            let p = decision.next_prio;
            let ghost top = *self;
            let registered = (p as usize) < PRIORITY_SLOTS && self.slots[p as usize].is_some();
            if registered {
                let threshold = match &self.slots[p as usize] {
                    Some(slot) => slot.threshold,
                    None => 0,
                };
                let ghost s0 = *self;
                self.scheduler.commit_activation(&decision, threshold);
                assert(self.slots@ == s0.slots@);
                let ghost s1 = *self;
                self.run_one(p);
                proof {
                    assert(self.runs().subrange(0, l0) =~= old(self).runs()) by {
                        assert forall|m: int| 0 <= m < l0 implies self.runs()[m] == old(self).runs()[m] by {
                            assert(self.runs()[m] == s1.runs()[m]);
                            assert(s1.runs().subrange(0, l0)[m] == s1.runs()[m]);
                        }
                    }
                    if count > 0 && first_ok {
                        assert(self.runs()[l0] == s1.runs()[l0]);
                    }
                    if count == 0 {
                        assert(s1.queue_at(p as int) == old(self).queue_at(p as int));
                    }
                    assert forall|q: int| 0 <= q < PRIORITY_SLOTS implies (#[trigger] self.slot_at(q)) is Some == top.slot_at(q) is Some by {
                        assert(self.slot_at(q) is Some == s1.slot_at(q) is Some);
                        assert(s1.slot_at(q) == top.slot_at(q));
                    }
                }
            } else if (p as usize) < PRIORITY_SLOTS {
                let ghost s0 = *self;
                self.scheduler.mark_not_ready(p);
                assert(self.slots@ == s0.slots@);
                assert(count == 0 ==> old(self).queue_at(p as int).len() == 0);
            }

            count = count + 1;
            let ghost s3 = *self;
            let next = if count < MAX_ACTIVATIONS { self.scheduler.next_after_dispatch(restore_threshold) } else { None };
            assert(self.slots@ == s3.slots@);
            match next {
                Some(n) => {
                    decision = n;
                },
                None => {
                    let ghost s4 = *self;
                    self.scheduler.restore_active(restore_prio, restore_threshold);
                    assert(self.slots@ == s4.slots@);
                },
            }
            proof {
                assert forall|q: int| 0 <= q < PRIORITY_SLOTS implies (#[trigger] self.slot_at(q)) is Some == old(self).slot_at(q) is Some by {
                    assert(self.slot_at(q) == s3.slot_at(q));
                    assert(s3.slot_at(q) is Some == top.slot_at(q) is Some);
                }
            }
            if next.is_none() {
                break;
            }
        }
    }

    /// Plans and runs one preemption chain; `true` when something ran. The
    /// chain starts with the eligible priority: its object is handed the
    /// front event of its queue (see [`QkKernel::runs`]).
    pub fn dispatch_once(&mut self) -> (r: bool)
        requires
            old(self).wf(),
            old(self).active_registered(),
        ensures
            final(self).active_registered(),
            final(self).wf(),
            final(self).routes() == old(self).routes(),
            forall|q: int| 0 <= q < PRIORITY_SLOTS ==> (#[trigger] final(self).slot_at(q)) is Some == old(self).slot_at(q) is Some,
            r == eligible(old(self).sched().ready_set(), old(self).sched().threshold(), old(self).sched().ceiling()) is Some,
            final(self).sched().active() == old(self).sched().active(),
            final(self).sched().ceiling() == old(self).sched().ceiling(),
            !r ==> forall|q: int| 0 <= q < PRIORITY_SLOTS ==> #[trigger] final(self).slot_at(q) == old(self).slot_at(q),
            !r ==> final(self).sched().ready_set() == old(self).sched().ready_set() && final(self).sched().threshold()
                == old(self).sched().threshold(),
            !r ==> final(self).runs() == old(self).runs(),
            final(self).runs().len() >= old(self).runs().len(),
            final(self).runs().subrange(0, old(self).runs().len() as int) == old(self).runs(),
            r ==> ({
                let p = eligible(old(self).sched().ready_set(), old(self).sched().threshold(), old(self).sched().ceiling())->Some_0;
                p < PRIORITY_SLOTS && old(self).queue_at(p as int).len() > 0 ==> final(self).runs().len() > old(self).runs().len()
                    && final(self).runs()[old(self).runs().len() as int] == (p, old(self).queue_at(p as int)[0])
            }),
    {
        let ghost s0 = *self;
        match self.scheduler.plan_activation() {
            Some(decision) => {
                assert(self.slots@ == s0.slots@);
                self.activate(decision);
                true
            },
            None => {
                assert(self.slots@ == s0.slots@);
                false
            },
        }
    }

    /// Dispatches until nothing may run (at most `usize::MAX` chains);
    /// returns how many chains ran.
    pub fn run_until_idle(&mut self) -> (count: usize)
        requires
            old(self).wf(),
            old(self).active_registered(),
        ensures
            final(self).active_registered(),
            final(self).wf(),
            final(self).routes() == old(self).routes(),
            forall|q: int| 0 <= q < PRIORITY_SLOTS ==> (#[trigger] final(self).slot_at(q)) is Some == old(self).slot_at(q) is Some,
            final(self).sched().active() == old(self).sched().active(),
            final(self).sched().ceiling() == old(self).sched().ceiling(),
            count < usize::MAX ==> eligible(final(self).sched().ready_set(), final(self).sched().threshold(), final(self).sched().ceiling()) is None,
            count == 0 <==> eligible(old(self).sched().ready_set(), old(self).sched().threshold(), old(self).sched().ceiling()) is None,
            count == 0 ==> (forall|q: int| 0 <= q < PRIORITY_SLOTS ==> #[trigger] final(self).slot_at(q) == old(self).slot_at(q))
                && final(self).sched().ready_set() == old(self).sched().ready_set()
                && final(self).sched().threshold() == old(self).sched().threshold(),
            count == 0 ==> final(self).runs() == old(self).runs(),
            final(self).runs().len() >= old(self).runs().len(),
            final(self).runs().subrange(0, old(self).runs().len() as int) == old(self).runs(),
            count > 0 ==> ({
                let p = eligible(old(self).sched().ready_set(), old(self).sched().threshold(), old(self).sched().ceiling())->Some_0;
                p < PRIORITY_SLOTS && old(self).queue_at(p as int).len() > 0 ==> final(self).runs().len() > old(self).runs().len()
                    && final(self).runs()[old(self).runs().len() as int] == (p, old(self).queue_at(p as int)[0])
            }),
    {
        let mut count: usize = 0;
        let ghost l0 = old(self).runs().len() as int;
        let ghost p0 = eligible(old(self).sched().ready_set(), old(self).sched().threshold(), old(self).sched().ceiling())->Some_0;
        let ghost first_ok = p0 < PRIORITY_SLOTS && old(self).queue_at(p0 as int).len() > 0;
        assert(self.runs().subrange(0, l0) =~= old(self).runs());
        while count < usize::MAX
            invariant
                l0 == old(self).runs().len(),
                p0 == eligible(old(self).sched().ready_set(), old(self).sched().threshold(), old(self).sched().ceiling())->Some_0,
                first_ok == (p0 < PRIORITY_SLOTS && old(self).queue_at(p0 as int).len() > 0),
                self.runs().len() >= l0,
                self.runs().subrange(0, l0) == old(self).runs(),
                count == 0 ==> self.runs() == old(self).runs(),
                count > 0 && first_ok ==> self.runs().len() > l0 && self.runs()[l0] == (p0, old(self).queue_at(p0 as int)[0]),
                self.wf(),
                self.routes() == old(self).routes(),
                forall|q: int| 0 <= q < PRIORITY_SLOTS ==> (#[trigger] self.slot_at(q)) is Some == old(self).slot_at(q) is Some,
                self.sched().active() == old(self).sched().active(),
                self.sched().ceiling() == old(self).sched().ceiling(),
                self.active_registered(),
                count > 0 ==> eligible(old(self).sched().ready_set(), old(self).sched().threshold(), old(self).sched().ceiling()) is Some,
                count == 0 ==> (forall|q: int| 0 <= q < PRIORITY_SLOTS ==> #[trigger] self.slot_at(q) == old(self).slot_at(q))
                    && self.sched().ready_set() == old(self).sched().ready_set()
                    && self.sched().threshold() == old(self).sched().threshold(),
            ensures
                l0 == old(self).runs().len(),
                p0 == eligible(old(self).sched().ready_set(), old(self).sched().threshold(), old(self).sched().ceiling())->Some_0,
                first_ok == (p0 < PRIORITY_SLOTS && old(self).queue_at(p0 as int).len() > 0),
                self.runs().len() >= l0,
                self.runs().subrange(0, l0) == old(self).runs(),
                count == 0 ==> self.runs() == old(self).runs(),
                count > 0 && first_ok ==> self.runs().len() > l0 && self.runs()[l0] == (p0, old(self).queue_at(p0 as int)[0]),
                self.wf(),
                self.routes() == old(self).routes(),
                forall|q: int| 0 <= q < PRIORITY_SLOTS ==> (#[trigger] self.slot_at(q)) is Some == old(self).slot_at(q) is Some,
                self.sched().active() == old(self).sched().active(),
                self.sched().ceiling() == old(self).sched().ceiling(),
                self.active_registered(),
                count < usize::MAX ==> eligible(self.sched().ready_set(), self.sched().threshold(), self.sched().ceiling()) is None,
                count > 0 ==> eligible(old(self).sched().ready_set(), old(self).sched().threshold(), old(self).sched().ceiling()) is Some,
                count == 0 ==> (forall|q: int| 0 <= q < PRIORITY_SLOTS ==> #[trigger] self.slot_at(q) == old(self).slot_at(q))
                    && self.sched().ready_set() == old(self).sched().ready_set()
                    && self.sched().threshold() == old(self).sched().threshold(),
            decreases usize::MAX - count,
        {
            let ghost s0 = *self;
            if !self.dispatch_once() {
                break;
            }
            proof {
                assert forall|q: int| 0 <= q < PRIORITY_SLOTS implies (#[trigger] self.slot_at(q)) is Some == old(self).slot_at(q) is Some by {
                    assert(self.slot_at(q) is Some == s0.slot_at(q) is Some);
                }
                assert(self.runs().subrange(0, l0) =~= old(self).runs()) by {
                    assert forall|m: int| 0 <= m < l0 implies self.runs()[m] == old(self).runs()[m] by {
                        assert(self.runs()[m] == self.runs().subrange(0, s0.runs().len() as int)[m]);
                        assert(s0.runs()[m] == s0.runs().subrange(0, l0)[m]);
                    }
                }
                if count > 0 && first_ok {
                    assert(self.runs()[l0] == self.runs().subrange(0, s0.runs().len() as int)[l0]);
                }
                if count == 0 && first_ok {
                    assert(s0.slot_at(p0 as int) == old(self).slot_at(p0 as int));
                    assert(s0.queue_at(p0 as int) == old(self).queue_at(p0 as int));
                }
            }
            count = count + 1;
        }
        count
    }

    /// Whether a ready object may preempt the running context.
    pub fn has_pending_work(&self) -> (r: bool)
        ensures
            r == eligible(self.sched().ready_set(), self.sched().threshold(), self.sched().ceiling()) is Some,
    {
        self.scheduler.has_ready_to_run()
    }

    /// Restores the ceiling saved in `status`; a lock being released lets a
    /// waiting object run at once.
    pub fn unlock_scheduler(&mut self, status: SchedStatus)
        requires
            old(self).wf(),
            old(self).active_registered(),
        ensures
            final(self).active_registered(),
            final(self).wf(),
            final(self).routes() == old(self).routes(),
            forall|q: int| 0 <= q < PRIORITY_SLOTS ==> (#[trigger] final(self).slot_at(q)) is Some == old(self).slot_at(q) is Some,
            final(self).sched().active() == old(self).sched().active(),
            final(self).sched().ceiling() == (match status {
                SchedStatus::Locked(v) => if old(self).sched().ceiling() > v {
                    v
                } else {
                    old(self).sched().ceiling()
                },
                SchedStatus::Unlocked => old(self).sched().ceiling(),
            }),
            status is Unlocked || eligible(old(self).sched().ready_set(), old(self).sched().threshold(), final(self).sched().ceiling()) is None
                ==> (forall|q: int| 0 <= q < PRIORITY_SLOTS ==> #[trigger] final(self).slot_at(q) == old(self).slot_at(q))
                && final(self).sched().ready_set() == old(self).sched().ready_set()
                && final(self).sched().threshold() == old(self).sched().threshold(),
    {
        let should_activate = status.is_locked();
        let ghost s0 = *self;
        self.scheduler.unlock(status);
        assert(self.slots@ == s0.slots@);
        if should_activate {
            let ghost s1 = *self;
            match self.scheduler.plan_activation() {
                Some(decision) => {
                    assert(self.slots@ == s1.slots@);
                    self.activate(decision);
                },
                None => {
                    assert(self.slots@ == s1.slots@);
                },
            }
        }
    }

    /// Posts, then runs until idle.
    pub fn post_and_run(&mut self, target: ActiveObjectId, event: DynEvent) -> (r: Result<(), QkKernelError>)
        requires
            old(self).wf(),
            old(self).active_registered(),
        ensures
            final(self).active_registered(),
            final(self).wf(),
            final(self).routes() == old(self).routes(),
            r is Err <==> forall|i: int| 0 <= i < old(self).routes().len() ==> (#[trigger] old(self).routes()[i]).0 != target,
            r is Err ==> r == Err::<(), QkKernelError>(QkKernelError::NotFound(target)),
    {
        match self.post(target, event) {
            Ok(()) => {},
            Err(e) => {
                return Err(e);
            },
        }
        self.run_until_idle();
        Ok(())
    }

    /// Publishes, then runs until idle; returns how many preemption chains
    /// ran (see [`QkKernel::run_until_idle`]).
    pub fn publish_and_run(&mut self, signal: Signal, event: DynEvent) -> (count: usize)
        requires
            old(self).wf(),
            old(self).active_registered(),
        ensures
            final(self).active_registered(),
            final(self).wf(),
            final(self).routes() == old(self).routes(),
            forall|p: int| 0 <= p < PRIORITY_SLOTS ==> (#[trigger] final(self).slot_at(p)) is Some == old(self).slot_at(p) is Some,
            final(self).sched().active() == old(self).sched().active(),
            final(self).sched().ceiling() == old(self).sched().ceiling(),
            count < usize::MAX ==> eligible(final(self).sched().ready_set(), final(self).sched().threshold(), final(self).sched().ceiling()) is None,
            count == 0 ==> {
                &&& forall|p: int| 0 <= p < PRIORITY_SLOTS && old(self).slot_at(p) is Some ==> #[trigger] final(self).queue_at(p)
                    == old(self).queue_at(p).push(retargeted(event, signal))
                &&& final(self).sched().ready_set() == old(self).sched().ready_set().union(
                    Set::new(|p: u8| p < PRIORITY_SLOTS && old(self).slot_at(p as int) is Some && old(self).queue_at(p as int).len() == 0),
                )
            },
    {
        self.publish(signal, event);
        let ghost mid = *self;
        let count = self.run_until_idle();
        proof {
            if count == 0 {
                assert forall|p: int| 0 <= p < PRIORITY_SLOTS && old(self).slot_at(p) is Some implies #[trigger] self.queue_at(p)
                    == old(self).queue_at(p).push(retargeted(event, signal)) by {
                    assert(self.slot_at(p) == mid.slot_at(p));
                    assert(mid.queue_at(p) == old(self).queue_at(p).push(retargeted(event, signal)));
                }
            }
        }
        count
    }

    /// Trace and context-switch notes of the scheduler not yet taken.
    pub fn take_notes(&mut self) -> (n: Vec<crate::qk::scheduler::SchedNote>)
        ensures
            n@ == old(self).sched().pending(),
            final(self).sched().pending() == Seq::<crate::qk::scheduler::SchedNote>::empty(),
            final(self).wf() == old(self).wf(),
            final(self).routes() == old(self).routes(),
            final(self).sched().ready_set() == old(self).sched().ready_set(),
    {
        let n = self.scheduler.take_notes();
        assert(self.slots@ == old(self).slots@);
        assert(self.id_to_prio@ == old(self).id_to_prio@);
        n
    }
}

} // verus!
