//! Ready-set scheduler of the preemptive kernel.
//!
//! Priorities `0..64` are tracked in a 64-bit ready set; priority `0` is the
//! idle context. A ready priority may run when it exceeds both the running
//! object's preemption threshold and the scheduler lock ceiling. Trace records
//! and context switches the scheduler produces are queued as [`SchedNote`]s
//! for the port to forward to its hooks.

use vstd::prelude::*;
use crate::qf::bits::{bit_set, lemma_bit_insert, lemma_bit_remove, lemma_bit_test, lemma_bit_zero};

verus! {

/// Encoding of "unlocked" in the raw lock-status byte.
pub const SCHED_UNLOCKED: u8 = 0xFF;

/// Saved scheduler-lock status.
#[derive(Debug, Clone, Copy, PartialEq, Eq, Structural)]
pub enum SchedStatus {
    /// The scheduler was locked; the previous ceiling is carried.
    Locked(u8),
    /// The scheduler was not (further) locked.
    Unlocked,
}

impl SchedStatus {
    /// Decodes a status from its raw byte (`0xFF` means unlocked).
    pub fn from_raw(raw: u8) -> (s: SchedStatus)
        ensures
            s == (if raw == SCHED_UNLOCKED { SchedStatus::Unlocked } else { SchedStatus::Locked(raw) }),
    {
        if raw == SCHED_UNLOCKED {
            SchedStatus::Unlocked
        } else {
            SchedStatus::Locked(raw)
        }
    }

    /// Encodes the status as a raw byte (`0xFF` means unlocked).
    pub fn to_raw(self) -> (r: u8)
        ensures
            r == (match self {
                SchedStatus::Locked(v) => v,
                SchedStatus::Unlocked => SCHED_UNLOCKED,
            }),
    {
        match self {
            SchedStatus::Locked(value) => value,
            SchedStatus::Unlocked => SCHED_UNLOCKED,
        }
    }

    /// Whether the status records a lock.
    pub fn is_locked(self) -> (r: bool)
        ensures
            r == (self is Locked),
    {
        match self {
            SchedStatus::Locked(_) => true,
            SchedStatus::Unlocked => false,
        }
    }
}

/// Law: decoding an encoded status gives it back, except a lock at ceiling
/// `0xFF`, whose encoding collides with "unlocked".
pub proof fn lemma_sched_status_round_trip(s: SchedStatus)
    requires
        s != SchedStatus::Locked(SCHED_UNLOCKED),
    ensures
        (if (match s {
            SchedStatus::Locked(v) => v,
            SchedStatus::Unlocked => SCHED_UNLOCKED,
        }) == SCHED_UNLOCKED {
            SchedStatus::Unlocked
        } else {
            SchedStatus::Locked(match s {
                SchedStatus::Locked(v) => v,
                SchedStatus::Unlocked => SCHED_UNLOCKED,
            })
        }) == s,
{
}

/// Set of ready priorities `0..64`.
#[derive(Default, Clone, Copy)]
pub struct ReadySet {
    bits: u64,
}

impl View for ReadySet {
    type V = Set<u8>;

    closed spec fn view(&self) -> Set<u8> {
        Set::new(|p: u8| p < 64 && bit_set(self.bits, p as u64))
    }
}

/// The greatest element of a set of priorities, if any.
pub open spec fn max_of(s: Set<u8>) -> Option<u8> {
    if exists|p: u8| s.contains(p) {
        Some(choose|p: u8| s.contains(p) && forall|q: u8| s.contains(q) ==> q <= p)
    } else {
        None::<u8>
    }
}

/// `m` is the greatest element of `s` (or `s` is empty when `m` is `None`).
pub open spec fn is_max_of(s: Set<u8>, m: Option<u8>) -> bool {
    match m {
        Some(p) => s.contains(p) && forall|q: u8| s.contains(q) ==> q <= p,
        None => forall|q: u8| !s.contains(q),
    }
}

/// A greatest element is unique.
pub proof fn lemma_max_unique(s: Set<u8>, m: Option<u8>)
    requires
        is_max_of(s, m),
    ensures
        m == max_of(s),
{
    match m {
        Some(p) => {
            let c = choose|c: u8| s.contains(c) && forall|q: u8| s.contains(q) ==> q <= c;
            assert(s.contains(c) && forall|q: u8| s.contains(q) ==> q <= c);
            assert(c <= p && p <= c);
        },
        None => {},
    }
}

impl ReadySet {
    /// An empty ready set.
    pub fn new() -> (r: ReadySet)
        ensures
            r@ == Set::<u8>::empty(),
    {
        let r = ReadySet { bits: 0 };
        assert(r@ =~= Set::<u8>::empty()) by {
            assert forall|p: u8| !r@.contains(p) by {
                if p < 64 {
                    lemma_bit_zero(p as u64);
                }
            }
        }
        r
    }

    /// Marks `prio` ready.
    pub fn insert(&mut self, prio: u8)
        requires
            prio < 64,
        ensures
            final(self)@ == old(self)@.insert(prio),
    {
        let ghost old_bits = self.bits;
        self.bits = self.bits | (1u64 << prio);
        proof {
            assert forall|p: u8| p < 64 implies #[trigger] bit_set(self.bits, p as u64) == (p == prio || bit_set(old_bits, p as u64)) by {
                lemma_bit_insert(old_bits, prio as u64, p as u64);
            }
            assert(self@ =~= old(self)@.insert(prio));
        }
    }

    /// Marks `prio` not ready.
    pub fn remove(&mut self, prio: u8)
        requires
            prio < 64,
        ensures
            final(self)@ == old(self)@.remove(prio),
    {
        let ghost old_bits = self.bits;
        self.bits = self.bits & !(1u64 << prio);
        proof {
            assert forall|p: u8| p < 64 implies #[trigger] bit_set(self.bits, p as u64) == (p != prio && bit_set(old_bits, p as u64)) by {
                lemma_bit_remove(old_bits, prio as u64, p as u64);
            }
            assert(self@ =~= old(self)@.remove(prio));
        }
    }

    /// Whether `prio` is ready.
    pub fn contains(&self, prio: u8) -> (r: bool)
        requires
            prio < 64,
        ensures
            r == self@.contains(prio),
    {
        proof { lemma_bit_test(self.bits, prio as u64); }
        (self.bits & (1u64 << prio)) != 0
    }

    /// The highest ready priority, or `None` when nothing is ready.
    pub fn max(&self) -> (r: Option<u8>)
        ensures
            is_max_of(self@, r),
            r == max_of(self@),
    {
        let mut i: u8 = 64;
        while i > 0
            invariant
                i <= 64,
                forall|q: u8| i <= q < 64 ==> !#[trigger] self@.contains(q),
            decreases i,
        {
            i = i - 1;
            if self.contains(i) {
                proof {
                    assert forall|q: u8| self@.contains(q) implies q <= i by {
                        if q > i {
                            assert(q < 64);
                        }
                    }
                    lemma_max_unique(self@, Some(i));
                }
                return Some(i);
            }
        }
        proof {
            assert forall|q: u8| !self@.contains(q) by {
                if q < 64 {
                    assert(i <= q);
                }
            }
            lemma_max_unique(self@, None);
        }
        None
    }

    /// Clears every priority.
    pub fn clear(&mut self)
        ensures
            final(self)@ == Set::<u8>::empty(),
    {
        *self = ReadySet::new();
    }

    /// Whether `prio` lies in the supported range `0..64`.
    pub fn assert_range(prio: u8) -> (r: bool)
        ensures
            r == (prio < 64),
    {
        prio < 64
    }
}

/// Outcome of a scheduling pass.
#[derive(Debug, Clone, Copy, PartialEq, Eq, Structural)]
pub struct ScheduleDecision {
    /// Priority selected to run next.
    pub next_prio: u8,
    /// Priority that was running before this decision.
    pub previous_prio: u8,
}

/// An observable effect of the scheduler, for the port's trace and
/// context-switch hooks.
#[derive(Debug, Clone, Copy, PartialEq, Eq, Structural)]
pub enum SchedNote {
    /// The ceiling was raised from the first to the second value.
    Lock(u8, u8),
    /// The ceiling was lowered from the first to the second value.
    Unlock(u8, u8),
    /// The running priority changed to the first value from the second.
    Next(u8, u8),
    /// The scheduler went idle after running the given priority.
    Idle(u8),
    /// Context switch from the first priority to the second.
    ContextSwitch(u8, u8),
}

/// Preemptive-kernel scheduler state.
pub struct QkScheduler {
    lock_ceiling: u8,
    active_prio: u8,
    active_threshold: u8,
    next_prio: u8,
    ready: ReadySet,
    notes: Vec<SchedNote>,
}

/// The highest ready priority when it may preempt under `threshold` and
/// `ceiling`.
pub open spec fn eligible(ready: Set<u8>, threshold: u8, ceiling: u8) -> Option<u8> {
    match max_of(ready) {
        Some(p) => if p > threshold && p > ceiling { Some(p) } else { None::<u8> },
        None => None::<u8>,
    }
}

impl QkScheduler {
    /// Current lock ceiling.
    pub closed spec fn ceiling(self) -> u8 {
        self.lock_ceiling
    }

    /// Priority of the running context (`0` = idle).
    pub closed spec fn active(self) -> u8 {
        self.active_prio
    }

    /// Preemption threshold of the running context.
    pub closed spec fn threshold(self) -> u8 {
        self.active_threshold
    }

    /// Priority planned to run next (`0` when none).
    pub closed spec fn planned(self) -> u8 {
        self.next_prio
    }

    /// Ready priorities.
    pub closed spec fn ready_set(self) -> Set<u8> {
        self.ready@
    }

    /// Effects produced and not yet taken.
    pub closed spec fn pending(self) -> Seq<SchedNote> {
        self.notes@
    }

    /// A scheduler with nothing ready, idle, unlocked.
    pub fn new() -> (s: QkScheduler)
        ensures
            s.ceiling() == 0,
            s.active() == 0,
            s.threshold() == 0,
            s.planned() == 0,
            s.ready_set() == Set::<u8>::empty(),
            s.pending() == Seq::<SchedNote>::empty(),
    {
        QkScheduler {
            lock_ceiling: 0,
            active_prio: 0,
            active_threshold: 0,
            next_prio: 0,
            ready: ReadySet::new(),
            notes: Vec::new(),
        }
    }

    /// Hands out (and forgets) the effects produced so far.
    pub fn take_notes(&mut self) -> (n: Vec<SchedNote>)
        ensures
            n@ == old(self).pending(),
            final(self).pending() == Seq::<SchedNote>::empty(),
            final(self).ceiling() == old(self).ceiling(),
            final(self).active() == old(self).active(),
            final(self).threshold() == old(self).threshold(),
            final(self).planned() == old(self).planned(),
            final(self).ready_set() == old(self).ready_set(),
    {
        let mut n = Vec::new();
        std::mem::swap(&mut n, &mut self.notes);
        n
    }

    /// Raises the lock ceiling to `ceiling` if that is higher, returning the
    /// status to hand back to [`unlock`](Self::unlock).
    pub fn lock(&mut self, ceiling: u8) -> (st: SchedStatus)
        ensures
            ceiling > old(self).ceiling() ==> {
                &&& st == SchedStatus::Locked(old(self).ceiling())
                &&& final(self).ceiling() == ceiling
                &&& final(self).pending() == old(self).pending().push(SchedNote::Lock(old(self).ceiling(), ceiling))
            },
            ceiling <= old(self).ceiling() ==> {
                &&& st == SchedStatus::Unlocked
                &&& final(self).ceiling() == old(self).ceiling()
                &&& final(self).pending() == old(self).pending()
            },
            final(self).active() == old(self).active(),
            final(self).threshold() == old(self).threshold(),
            final(self).planned() == old(self).planned(),
            final(self).ready_set() == old(self).ready_set(),
    {
        if ceiling > self.lock_ceiling {
            let previous = self.lock_ceiling;
            self.lock_ceiling = ceiling;
            self.notes.push(SchedNote::Lock(previous, ceiling));
            SchedStatus::Locked(previous)
        } else {
            SchedStatus::Unlocked
        }
    }

    /// Restores the ceiling saved in `prev` when it is lower than the current one.
    pub fn unlock(&mut self, prev: SchedStatus)
        ensures
            (match prev {
                SchedStatus::Locked(v) => old(self).ceiling() > v,
                SchedStatus::Unlocked => false,
            }) ==> {
                &&& final(self).ceiling() == prev->Locked_0
                &&& final(self).pending() == old(self).pending().push(
                    SchedNote::Unlock(old(self).ceiling(), prev->Locked_0),
                )
            },
            !(match prev {
                SchedStatus::Locked(v) => old(self).ceiling() > v,
                SchedStatus::Unlocked => false,
            }) ==> {
                &&& final(self).ceiling() == old(self).ceiling()
                &&& final(self).pending() == old(self).pending()
            },
            final(self).active() == old(self).active(),
            final(self).threshold() == old(self).threshold(),
            final(self).planned() == old(self).planned(),
            final(self).ready_set() == old(self).ready_set(),
    {
        if let SchedStatus::Locked(value) = prev {
            if self.lock_ceiling > value {
                let current = self.lock_ceiling;
                self.lock_ceiling = value;
                self.notes.push(SchedNote::Unlock(current, value));
            }
        }
    }

    /// Marks `prio` ready to run.
    pub fn mark_ready(&mut self, prio: u8)
        requires
            prio < 64,
        ensures
            final(self).ready_set() == old(self).ready_set().insert(prio),
            final(self).ceiling() == old(self).ceiling(),
            final(self).active() == old(self).active(),
            final(self).threshold() == old(self).threshold(),
            final(self).planned() == old(self).planned(),
            final(self).pending() == old(self).pending(),
    {
        self.ready.insert(prio);
    }

    /// Clears the ready flag of `prio`.
    pub fn mark_not_ready(&mut self, prio: u8)
        requires
            prio < 64,
        ensures
            final(self).ready_set() == old(self).ready_set().remove(prio),
            final(self).ceiling() == old(self).ceiling(),
            final(self).active() == old(self).active(),
            final(self).threshold() == old(self).threshold(),
            final(self).planned() == old(self).planned(),
            final(self).pending() == old(self).pending(),
    {
        self.ready.remove(prio);
    }

    /// Whether `prio` is ready.
    pub fn is_ready(&self, prio: u8) -> (r: bool)
        requires
            prio < 64,
        ensures
            r == self.ready_set().contains(prio),
    {
        self.ready.contains(prio)
    }

    /// Clears the whole ready set.
    pub fn reset_ready(&mut self)
        ensures
            final(self).ready_set() == Set::<u8>::empty(),
            final(self).ceiling() == old(self).ceiling(),
            final(self).active() == old(self).active(),
            final(self).threshold() == old(self).threshold(),
            final(self).planned() == old(self).planned(),
            final(self).pending() == old(self).pending(),
    {
        self.ready.clear();
    }

    /// Records the running context's priority and preemption threshold.
    pub fn configure_active(&mut self, active_prio: u8, threshold: u8)
        ensures
            final(self).active() == active_prio,
            final(self).threshold() == threshold,
            final(self).ceiling() == old(self).ceiling(),
            final(self).planned() == old(self).planned(),
            final(self).ready_set() == old(self).ready_set(),
            final(self).pending() == old(self).pending(),
    {
        self.active_prio = active_prio;
        self.active_threshold = threshold;
    }

    /// Selects the highest ready priority allowed above `threshold` and the
    /// lock ceiling, recording it as planned (or planning nothing).
    fn plan_with(&mut self, threshold: u8) -> (d: Option<ScheduleDecision>)
        ensures
            d == (match eligible(old(self).ready_set(), threshold, old(self).ceiling()) {
                Some(p) => Some(ScheduleDecision { next_prio: p, previous_prio: old(self).active() }),
                None => None::<ScheduleDecision>,
            }),
            final(self).planned() == (match d {
                Some(x) => x.next_prio,
                None => 0u8,
            }),
            final(self).ceiling() == old(self).ceiling(),
            final(self).active() == old(self).active(),
            final(self).threshold() == old(self).threshold(),
            final(self).ready_set() == old(self).ready_set(),
            final(self).pending() == old(self).pending(),
    {
        match self.ready.max() {
            Some(prio) => {
                if prio > threshold && prio > self.lock_ceiling {
                    self.next_prio = prio;
                    Some(ScheduleDecision { next_prio: prio, previous_prio: self.active_prio })
                } else {
                    self.next_prio = 0;
                    None
                }
            },
            None => {
                self.next_prio = 0;
                None
            },
        }
    }

    /// Plans the highest ready priority that may preempt the running context
    /// (above its threshold and the lock ceiling).
    pub fn plan_activation(&mut self) -> (d: Option<ScheduleDecision>)
        ensures
            d == (match eligible(old(self).ready_set(), old(self).threshold(), old(self).ceiling()) {
                Some(p) => Some(ScheduleDecision { next_prio: p, previous_prio: old(self).active() }),
                None => None::<ScheduleDecision>,
            }),
            final(self).planned() == (match d {
                Some(x) => x.next_prio,
                None => 0u8,
            }),
            final(self).ceiling() == old(self).ceiling(),
            final(self).active() == old(self).active(),
            final(self).threshold() == old(self).threshold(),
            final(self).ready_set() == old(self).ready_set(),
            final(self).pending() == old(self).pending(),
    {
        let th = self.active_threshold;
        self.plan_with(th)
    }

    /// Whether a ready priority could preempt the running context.
    pub fn has_ready_to_run(&self) -> (r: bool)
        ensures
            r == eligible(self.ready_set(), self.threshold(), self.ceiling()).is_some(),
    {
        match self.ready.max() {
            Some(prio) => prio > self.active_threshold && prio > self.lock_ceiling,
            None => false,
        }
    }

    /// Like [`plan_activation`](Self::plan_activation), gated by an explicit
    /// threshold; used after a dispatch completes to pick the follow-up.
    pub fn next_after_dispatch(&mut self, initial_threshold: u8) -> (d: Option<ScheduleDecision>)
        ensures
            d == (match eligible(old(self).ready_set(), initial_threshold, old(self).ceiling()) {
                Some(p) => Some(ScheduleDecision { next_prio: p, previous_prio: old(self).active() }),
                None => None::<ScheduleDecision>,
            }),
            final(self).planned() == (match d {
                Some(x) => x.next_prio,
                None => 0u8,
            }),
            final(self).ceiling() == old(self).ceiling(),
            final(self).active() == old(self).active(),
            final(self).threshold() == old(self).threshold(),
            final(self).ready_set() == old(self).ready_set(),
            final(self).pending() == old(self).pending(),
    {
        self.plan_with(initial_threshold)
    }

    /// Makes the decided priority the running one with `next_threshold`,
    /// noting a switch when the running priority changes.
    pub fn commit_activation(&mut self, decision: &ScheduleDecision, next_threshold: u8)
        ensures
            final(self).active() == decision.next_prio,
            final(self).threshold() == next_threshold,
            final(self).planned() == 0,
            final(self).ceiling() == old(self).ceiling(),
            final(self).ready_set() == old(self).ready_set(),
            final(self).pending() == (if decision.next_prio != old(self).active() {
                old(self).pending().push(SchedNote::Next(decision.next_prio, old(self).active())).push(
                    SchedNote::ContextSwitch(old(self).active(), decision.next_prio),
                )
            } else {
                old(self).pending()
            }),
    {
        let previous = self.active_prio;
        self.active_prio = decision.next_prio;
        self.active_threshold = next_threshold;
        self.next_prio = 0;
        if decision.next_prio != previous {
            self.notes.push(SchedNote::Next(decision.next_prio, previous));
            self.notes.push(SchedNote::ContextSwitch(previous, decision.next_prio));
        }
    }

    /// Restores the running priority and threshold after a preemption
    /// returns, noting an idle transition or a switch as appropriate.
    pub fn restore_active(&mut self, prio: u8, threshold: u8)
        ensures
            final(self).active() == prio,
            final(self).threshold() == threshold,
            final(self).planned() == 0,
            final(self).ceiling() == old(self).ceiling(),
            final(self).ready_set() == old(self).ready_set(),
            final(self).pending() == (if prio == 0 {
                if old(self).active() != 0 {
                    old(self).pending().push(SchedNote::Idle(old(self).active())).push(
                        SchedNote::ContextSwitch(old(self).active(), 0),
                    )
                } else {
                    old(self).pending()
                }
            } else if prio != old(self).active() {
                old(self).pending().push(SchedNote::Next(prio, old(self).active())).push(
                    SchedNote::ContextSwitch(old(self).active(), prio),
                )
            } else {
                old(self).pending()
            }),
    {
        let previous = self.active_prio;
        self.active_prio = prio;
        self.active_threshold = threshold;
        self.next_prio = 0;
        if prio == 0 {
            if previous != 0 {
                self.notes.push(SchedNote::Idle(previous));
                self.notes.push(SchedNote::ContextSwitch(previous, 0));
            }
        } else if prio != previous {
            self.notes.push(SchedNote::Next(prio, previous));
            self.notes.push(SchedNote::ContextSwitch(previous, prio));
        }
    }

    /// The priority that would preempt the running context, if any (plans
    /// it, as [`plan_activation`](Self::plan_activation) does).
    pub fn preemption_candidate(&mut self) -> (r: Option<u8>)
        ensures
            r == eligible(old(self).ready_set(), old(self).threshold(), old(self).ceiling()),
            final(self).planned() == (match r {
                Some(p) => p,
                None => 0u8,
            }),
            final(self).ceiling() == old(self).ceiling(),
            final(self).active() == old(self).active(),
            final(self).threshold() == old(self).threshold(),
            final(self).ready_set() == old(self).ready_set(),
            final(self).pending() == old(self).pending(),
    {
        match self.plan_activation() {
            Some(d) => Some(d.next_prio),
            None => None,
        }
    }

    /// The priority planned to run next (`0` when none).
    pub fn next_priority(&self) -> (r: u8)
        ensures
            r == self.planned(),
    {
        self.next_prio
    }

    /// The running priority.
    pub fn current_priority(&self) -> (r: u8)
        ensures
            r == self.active(),
    {
        self.active_prio
    }

    /// Marks the end of an execution (no bookkeeping on a single core).
    pub fn complete_execution(&self, _prio: u8) {
    }
}

/// Law: locking then unlocking with the returned status restores the lock
/// ceiling, whatever the ceiling requested.
pub proof fn lemma_lock_unlock_restores(before: u8, ceiling: u8)
    ensures
        ({
            let st = if ceiling > before { SchedStatus::Locked(before) } else { SchedStatus::Unlocked };
            let mid = if ceiling > before { ceiling } else { before };
            let after = match st {
                SchedStatus::Locked(v) => if mid > v { v } else { mid },
                SchedStatus::Unlocked => mid,
            };
            after == before
        }),
{
}

/// Law: a planned priority is ready, exceeds the threshold and the ceiling,
/// and no ready priority is higher.
pub proof fn lemma_eligible_is_highest(ready: Set<u8>, threshold: u8, ceiling: u8)
    ensures
        eligible(ready, threshold, ceiling) matches Some(p) ==> {
            &&& ready.contains(p)
            &&& p > threshold
            &&& p > ceiling
            &&& forall|q: u8| ready.contains(q) ==> q <= p
        },
        eligible(ready, threshold, ceiling) is None ==> forall|q: u8|
            ready.contains(q) ==> q <= threshold || q <= ceiling,
{
    if exists|p: u8| ready.contains(p) {
        let m = choose|p: u8| ready.contains(p) && forall|q: u8| ready.contains(q) ==> q <= p;
        lemma_exists_max(ready);
        assert(ready.contains(m) && forall|q: u8| ready.contains(q) ==> q <= m);
    }
}

/// A nonempty set of priorities has a greatest element.
pub proof fn lemma_exists_max(s: Set<u8>)
    requires
        exists|p: u8| s.contains(p),
    ensures
        exists|m: u8| s.contains(m) && forall|q: u8| s.contains(q) ==> q <= m,
{
    let p = choose|p: u8| s.contains(p);
    lemma_exists_max_above(s, p);
}

proof fn lemma_exists_max_above(s: Set<u8>, p: u8)
    requires
        s.contains(p),
    ensures
        exists|m: u8| s.contains(m) && forall|q: u8| s.contains(q) ==> q <= m,
    decreases 255 - p,
{
    if exists|q: u8| s.contains(q) && q > p {
        let q = choose|q: u8| s.contains(q) && q > p;
        lemma_exists_max_above(s, q);
    } else {
        assert(forall|q: u8| s.contains(q) ==> q <= p);
    }
}

} // verus!
