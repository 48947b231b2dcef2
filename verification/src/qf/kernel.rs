//! Cooperative (QV) kernel: configuration, publish-subscribe table and a
//! run-to-completion scheduler over registered active objects.

use vstd::prelude::*;
use crate::qf::active::{ActiveBehavior, ActiveContext, ActiveObject, ActiveObjectId};
use crate::qf::bits::{bit_set, lemma_bit_insert, lemma_bit_remove, lemma_bit_test, lemma_bit_zero};
use crate::qf::event::{DynEvent, Event, EventHeader, Signal};

verus! {

/// Sizing metadata of a kernel, as reported to tracing tools.
#[derive(Debug, Clone, Copy)]
pub struct KernelConfig {
    /// Application name.
    pub name: &'static str,
    /// Number of active objects the system is sized for.
    pub max_active: u8,
    /// Number of event pools.
    pub max_event_pools: u8,
    /// Number of tick-rate domains.
    pub max_tick_rate: u8,
    /// Byte width of event-queue counters.
    pub event_queue_ctr_size: u8,
    /// Byte width of time-event counters.
    pub time_event_ctr_size: u8,
    /// Framework version (e.g. `740`).
    pub version: u16,
    /// Free-form build information.
    pub build_info: Option<&'static str>,
}

/// The default configuration: `"QP"`, 16 active objects, 3 pools, 4 tick
/// rates, 2-byte counters, version 740, no build information.
pub open spec fn default_config(c: KernelConfig) -> bool {
    &&& c.name@ == "QP"@
    &&& c.max_active == 16
    &&& c.max_event_pools == 3
    &&& c.max_tick_rate == 4
    &&& c.event_queue_ctr_size == 2
    &&& c.time_event_ctr_size == 2
    &&& c.version == 740
    &&& c.build_info is None
}

impl Default for KernelConfig {
    fn default() -> (c: KernelConfig)
        ensures
            default_config(c),
    {
        let name = "QP";
        proof {
            reveal_strlit("QP");
        }
        KernelConfig {
            name,
            max_active: 16,
            max_event_pools: 3,
            max_tick_rate: 4,
            event_queue_ctr_size: 2,
            time_event_ctr_size: 2,
            version: 740,
            build_info: None,
        }
    }
}

impl KernelConfig {
    /// A builder starting from the default configuration.
    pub fn builder() -> (b: KernelConfigBuilder)
        ensures
            default_config(b.config),
    {
        KernelConfigBuilder::default()
    }
}

/// Builder of a [`KernelConfig`].
#[derive(Debug, Clone, Copy)]
pub struct KernelConfigBuilder {
    /// The configuration being built.
    pub config: KernelConfig,
}

impl Default for KernelConfigBuilder {
    fn default() -> (b: KernelConfigBuilder)
        ensures
            default_config(b.config),
    {
        KernelConfigBuilder { config: KernelConfig::default() }
    }
}

impl KernelConfigBuilder {
    /// Sets the application name.
    pub fn name(self, name: &'static str) -> (b: KernelConfigBuilder)
        ensures
            b.config == (KernelConfig { name, ..self.config }),
    {
        let mut b = self;
        b.config.name = name;
        b
    }

    /// Sets the number of active objects.
    pub fn max_active(self, max: u8) -> (b: KernelConfigBuilder)
        ensures
            b.config == (KernelConfig { max_active: max, ..self.config }),
    {
        let mut b = self;
        b.config.max_active = max;
        b
    }

    /// Sets the number of event pools.
    pub fn max_event_pools(self, max: u8) -> (b: KernelConfigBuilder)
        ensures
            b.config == (KernelConfig { max_event_pools: max, ..self.config }),
    {
        let mut b = self;
        b.config.max_event_pools = max;
        b
    }

    /// Sets the number of tick-rate domains.
    pub fn max_tick_rate(self, max: u8) -> (b: KernelConfigBuilder)
        ensures
            b.config == (KernelConfig { max_tick_rate: max, ..self.config }),
    {
        let mut b = self;
        b.config.max_tick_rate = max;
        b
    }

    /// Sets the byte widths of event-queue and time-event counters.
    pub fn counter_sizes(self, queue: u8, time: u8) -> (b: KernelConfigBuilder)
        ensures
            b.config == (KernelConfig {
                event_queue_ctr_size: queue,
                time_event_ctr_size: time,
                ..self.config
            }),
    {
        let mut b = self;
        b.config.event_queue_ctr_size = queue;
        b.config.time_event_ctr_size = time;
        b
    }

    /// Sets the version number.
    pub fn version(self, version: u16) -> (b: KernelConfigBuilder)
        ensures
            b.config == (KernelConfig { version, ..self.config }),
    {
        let mut b = self;
        b.config.version = version;
        b
    }

    /// Sets the build information.
    pub fn build_info(self, info: &'static str) -> (b: KernelConfigBuilder)
        ensures
            b.config == (KernelConfig { build_info: Some(info), ..self.config }),
    {
        let mut b = self;
        b.config.build_info = Some(info);
        b
    }

    /// The configuration.
    pub fn build(self) -> (c: KernelConfig)
        ensures
            c == self.config,
    {
        self.config
    }
}

/// Priorities (`0..64`) whose bit is set in a subscriber word.
pub open spec fn prio_set(bits: u64) -> Set<u8> {
    Set::new(|p: u8| p < 64 && bit_set(bits, p as u64))
}

/// Subscription table: for each signal `0..=max_signal`, the set of
/// subscribed priorities as a 64-bit word.
pub struct PubSubTable {
    subscriptions: Vec<u64>,
    max_signal: u16,
}

impl PubSubTable {
    /// Well-formedness: one word per signal.
    pub closed spec fn wf(&self) -> bool {
        self.subscriptions@.len() == self.max_signal + 1
    }

    /// Largest signal value the table covers.
    pub closed spec fn max_sig(&self) -> u16 {
        self.max_signal
    }

    /// The subscriber word of each signal.
    pub closed spec fn words(&self) -> Seq<u64> {
        self.subscriptions@
    }

    /// Priorities subscribed to the signal with value `s`.
    pub open spec fn subscribed(&self, s: u16) -> Set<u8> {
        prio_set(self.words()[s as int])
    }

    /// A table covering signals `0..=max_signal`, with no subscription.
    pub fn new(max_signal: u16) -> (t: PubSubTable)
        ensures
            t.wf(),
            t.max_sig() == max_signal,
            forall|s: int| 0 <= s <= max_signal ==> #[trigger] t.words()[s] == 0,
    {
        let size = max_signal as usize + 1;
        let subscriptions: Vec<u64> = vec![0u64; size];
        PubSubTable { subscriptions, max_signal }
    }

    /// Subscribes `priority` to `signal`.
    pub fn subscribe(&mut self, signal: Signal, priority: u8)
        requires
            old(self).wf(),
            signal@ <= old(self).max_sig(),
            priority < 64,
        ensures
            final(self).wf(),
            final(self).max_sig() == old(self).max_sig(),
            final(self).words() == old(self).words().update(
                signal@ as int,
                old(self).words()[signal@ as int] | (1u64 << priority),
            ),
            final(self).subscribed(signal@) == old(self).subscribed(signal@).insert(priority),
    {
        let idx = signal.raw() as usize;
        let w = self.subscriptions[idx] | (1u64 << priority);
        self.subscriptions.set(idx, w);
        proof {
            let old_w = old(self).words()[idx as int];
            assert forall|p: u8| #![trigger prio_set(w).contains(p)] prio_set(w).contains(p) == prio_set(
                old_w,
            ).insert(priority).contains(p) by {
                if p < 64 {
                    lemma_bit_insert(old_w, priority as u64, p as u64);
                }
            }
            assert(prio_set(w) =~= prio_set(old_w).insert(priority));
        }
    }

    /// Unsubscribes `priority` from `signal`.
    pub fn unsubscribe(&mut self, signal: Signal, priority: u8)
        requires
            old(self).wf(),
            signal@ <= old(self).max_sig(),
            priority < 64,
        ensures
            final(self).wf(),
            final(self).max_sig() == old(self).max_sig(),
            final(self).words() == old(self).words().update(
                signal@ as int,
                old(self).words()[signal@ as int] & !(1u64 << priority),
            ),
            final(self).subscribed(signal@) == old(self).subscribed(signal@).remove(priority),
    {
        let idx = signal.raw() as usize;
        let w = self.subscriptions[idx] & !(1u64 << priority);
        self.subscriptions.set(idx, w);
        proof {
            let old_w = old(self).words()[idx as int];
            assert forall|p: u8| #![trigger prio_set(w).contains(p)] prio_set(w).contains(p) == prio_set(
                old_w,
            ).remove(priority).contains(p) by {
                if p < 64 {
                    lemma_bit_remove(old_w, priority as u64, p as u64);
                }
            }
            assert(prio_set(w) =~= prio_set(old_w).remove(priority));
        }
    }

    /// Removes `priority` from every signal's subscribers.
    pub fn unsubscribe_all(&mut self, priority: u8)
        requires
            old(self).wf(),
            priority < 64,
        ensures
            final(self).wf(),
            final(self).max_sig() == old(self).max_sig(),
            forall|s: int|
                0 <= s < final(self).words().len() ==> #[trigger] final(self).words()[s] == old(
                    self,
                ).words()[s] & !(1u64 << priority),
            forall|s: u16|
                s <= final(self).max_sig() ==> #[trigger] final(self).subscribed(s) == old(
                    self,
                ).subscribed(s).remove(priority),
    {
        let mask = !(1u64 << priority);
        let n = self.subscriptions.len();
        let mut i: usize = 0;
        while i < n
            invariant
                old(self).wf(),
                n == old(self).words().len(),
                i <= n,
                self.wf(),
                self.max_sig() == old(self).max_sig(),
                mask == !(1u64 << priority),
                forall|s: int| 0 <= s < i ==> #[trigger] self.words()[s] == old(self).words()[s] & mask,
                forall|s: int| i <= s < n ==> #[trigger] self.words()[s] == old(self).words()[s],
            decreases n - i,
        {
            let ghost prev = self.words();
            let w = self.subscriptions[i] & mask;
            assert(w == old(self).words()[i as int] & mask);
            self.subscriptions.set(i, w);
            assert(self.words() == prev.update(i as int, w));
            i = i + 1;
        }
        proof {
            assert forall|s: u16| s <= self.max_sig() implies #[trigger] self.subscribed(s) == old(
                self,
            ).subscribed(s).remove(priority) by {
                let old_w = old(self).words()[s as int];
                assert forall|p: u8| #![trigger prio_set(old_w & mask).contains(p)] prio_set(old_w & mask).contains(p)
                    == prio_set(old_w).remove(priority).contains(p) by {
                    if p < 64 {
                        lemma_bit_remove(old_w, priority as u64, p as u64);
                    }
                }
                assert(prio_set(old_w & mask) =~= prio_set(old_w).remove(priority));
            }
        }
    }

    /// The subscriber word of `signal`.
    pub fn subscribers(&self, signal: Signal) -> (w: u64)
        requires
            self.wf(),
            signal@ <= self.max_sig(),
        ensures
            w == self.words()[signal@ as int],
    {
        self.subscriptions[signal.raw() as usize]
    }
}

/// Errors of kernel operations.
#[derive(Debug, Clone, Copy, PartialEq, Eq, Structural)]
pub enum KernelError {
    /// No active object is registered under the id.
    NotFound(ActiveObjectId),
}

/// Trace records the kernel produces while tracing is enabled, for the port
/// to forward to its trace output.
#[derive(Debug, Clone, Copy, PartialEq, Eq, Structural)]
pub enum KernelRecord {
    /// The scheduler ceiling was raised from `prev` to `ceiling`.
    SchedLock { prev: u8, ceiling: u8 },
    /// The scheduler ceiling was lowered from `prev` to zero.
    SchedUnlock { prev: u8 },
    /// Dispatch moved from priority `prev` to `prio`.
    SchedNext { prio: u8, prev: u8 },
    /// The kernel went idle after running priority `prev`.
    SchedIdle { prev: u8 },
    /// Priority `prio` subscribed to `signal`.
    Subscribe { prio: u8, signal: Signal },
    /// Priority `prio` unsubscribed from `signal`.
    Unsubscribe { prio: u8, signal: Signal },
    /// `signal` was published through the subscription table.
    Publish { signal: Signal },
}

/// Ids of a sequence of active objects.
pub open spec fn ids_of<B: ActiveBehavior>(objs: Seq<ActiveObject<B>>) -> Seq<ActiveObjectId> {
    objs.map_values(|o: ActiveObject<B>| o.ident())
}

/// Priorities of a sequence of active objects.
pub open spec fn prios_of<B: ActiveBehavior>(objs: Seq<ActiveObject<B>>) -> Seq<u8> {
    objs.map_values(|o: ActiveObject<B>| o.prio())
}

/// Event queues of a sequence of active objects.
pub open spec fn queues_of<B: ActiveBehavior>(objs: Seq<ActiveObject<B>>) -> Seq<Seq<DynEvent>> {
    objs.map_values(|o: ActiveObject<B>| o.queued())
}

/// Priorities never decrease along the sequence.
pub open spec fn sorted_by_prio(prios: Seq<u8>) -> bool {
    forall|i: int, j: int| 0 <= i < j < prios.len() ==> prios[i] <= prios[j]
}

/// Every active object of the sequence is well-formed.
pub open spec fn all_wf<B: ActiveBehavior>(objs: Seq<ActiveObject<B>>) -> bool {
    forall|i: int| 0 <= i < objs.len() ==> #[trigger] objs[i].wf()
}

/// `i` is the last position holding `id`.
pub open spec fn is_last_with(ids: Seq<ActiveObjectId>, id: ActiveObjectId, i: int) -> bool {
    &&& 0 <= i < ids.len()
    &&& ids[i] == id
    &&& forall|j: int| i < j < ids.len() ==> #[trigger] ids[j] != id
}

/// Position an event for `id` is delivered to: the last one holding it.
pub open spec fn slot_of(ids: Seq<ActiveObjectId>, id: ActiveObjectId) -> Option<int> {
    if exists|i: int| is_last_with(ids, id, i) {
        Some(choose|i: int| is_last_with(ids, id, i))
    } else {
        None
    }
}

/// Queues after delivering one addressed event.
pub open spec fn deliver_one(
    qs: Seq<Seq<DynEvent>>,
    ids: Seq<ActiveObjectId>,
    m: (ActiveObjectId, DynEvent),
) -> Seq<Seq<DynEvent>> {
    match slot_of(ids, m.0) {
        Some(i) => qs.update(i, qs[i].push(m.1)),
        None => qs,
    }
}

/// Queues after delivering addressed events in order; events for unknown
/// ids are dropped.
pub open spec fn deliver(
    qs: Seq<Seq<DynEvent>>,
    ids: Seq<ActiveObjectId>,
    msgs: Seq<(ActiveObjectId, DynEvent)>,
) -> Seq<Seq<DynEvent>>
    decreases msgs.len(),
{
    if msgs.len() == 0 {
        qs
    } else {
        deliver(deliver_one(qs, ids, msgs[0]), ids, msgs.drop_first())
    }
}

/// Position of the highest-priority active object with queued events.
pub open spec fn top_ready(qs: Seq<Seq<DynEvent>>) -> Option<int> {
    if exists|i: int| 0 <= i < qs.len() && qs[i].len() > 0 {
        Some(choose|i: int| 0 <= i < qs.len() && qs[i].len() > 0 && forall|j: int| i < j < qs.len() ==> #[trigger] qs[j].len() == 0)
    } else {
        None
    }
}

/// The last position holding `id` is unique.
proof fn lemma_slot_of(ids: Seq<ActiveObjectId>, id: ActiveObjectId, i: int)
    requires
        is_last_with(ids, id, i),
    ensures
        slot_of(ids, id) == Some(i),
{
    let c = choose|k: int| is_last_with(ids, id, k);
    assert(is_last_with(ids, id, c));
    if c < i {
        assert(ids[i] != id);
    }
    if c > i {
        assert(ids[c] != id);
    }
}

/// The highest ready position is unique.
proof fn lemma_top_ready(qs: Seq<Seq<DynEvent>>, i: int)
    requires
        0 <= i < qs.len(),
        qs[i].len() > 0,
        forall|j: int| i < j < qs.len() ==> #[trigger] qs[j].len() == 0,
    ensures
        top_ready(qs) == Some(i),
{
    let c = choose|k: int| 0 <= k < qs.len() && qs[k].len() > 0 && forall|j: int| k < j < qs.len() ==> #[trigger] qs[j].len() == 0;
    assert(0 <= c < qs.len() && qs[c].len() > 0 && forall|j: int| c < j < qs.len() ==> #[trigger] qs[j].len() == 0);
    if c < i {
        assert(qs[i].len() == 0);
    }
    if c > i {
        assert(qs[c].len() == 0);
    }
}

/// Builder of a [`QvKernel`]: register active objects, optionally a
/// subscription table and tracing, then build.
pub struct KernelBuilder<B: ActiveBehavior> {
    config: KernelConfig,
    objects: Vec<ActiveObject<B>>,
    pubsub: Option<PubSubTable>,
    tracing: bool,
}

impl<B: ActiveBehavior> KernelBuilder<B> {
    /// Well-formedness: objects well-formed and ordered by priority.
    pub closed spec fn wf(&self) -> bool {
        &&& all_wf(self.objects@)
        &&& sorted_by_prio(prios_of(self.objects@))
        &&& (self.pubsub matches Some(t) ==> t.wf())
    }

    /// The registered objects, in ascending priority.
    pub closed spec fn objects(&self) -> Seq<ActiveObject<B>> {
        self.objects@
    }

    /// The configuration.
    pub closed spec fn cfg(&self) -> KernelConfig {
        self.config
    }

    /// The subscription table, if one was requested.
    pub closed spec fn table(&self) -> Option<PubSubTable> {
        self.pubsub
    }

    /// Whether the kernel will record trace records.
    pub closed spec fn traces(&self) -> bool {
        self.tracing
    }

    /// A builder with `config`, no object, no table, no tracing.
    pub fn new(config: KernelConfig) -> (b: KernelBuilder<B>)
        ensures
            b.wf(),
            b.cfg() == config,
            b.objects() == Seq::<ActiveObject<B>>::empty(),
            b.table() is None,
            !b.traces(),
    {
        KernelBuilder { config, objects: Vec::new(), pubsub: None, tracing: false }
    }

    /// Enables publish-subscribe with a table for signals `0..=max_signal`.
    pub fn ps_init(self, max_signal: u16) -> (b: KernelBuilder<B>)
        requires
            self.wf(),
        ensures
            b.wf(),
            b.cfg() == self.cfg(),
            b.objects() == self.objects(),
            b.traces() == self.traces(),
            b.table() matches Some(t) && t.max_sig() == max_signal && forall|s: int|
                0 <= s <= max_signal ==> #[trigger] t.words()[s] == 0,
    {
        let mut b = self;
        b.pubsub = Some(PubSubTable::new(max_signal));
        b
    }

    /// Enables trace records.
    pub fn with_tracing(self) -> (b: KernelBuilder<B>)
        requires
            self.wf(),
        ensures
            b.wf(),
            b.cfg() == self.cfg(),
            b.objects() == self.objects(),
            b.table() == self.table(),
            b.traces(),
    {
        let mut b = self;
        b.tracing = true;
        b
    }

    /// Registers an active object, keeping objects in ascending priority
    /// (after those of equal priority).
    pub fn register(self, object: ActiveObject<B>) -> (b: KernelBuilder<B>)
        requires
            self.wf(),
            object.wf(),
        ensures
            b.wf(),
            b.cfg() == self.cfg(),
            b.table() == self.table(),
            b.traces() == self.traces(),
            b.objects().to_multiset() == self.objects().to_multiset().insert(object),
            b.objects().len() == self.objects().len() + 1,
    {
        let mut b = self;
        let p = object.priority();
        let n = b.objects.len();
        let mut pos: usize = 0;
        while pos < n && b.objects[pos].priority() <= p
            invariant
                n == b.objects@.len(),
                pos <= n,
                forall|j: int| 0 <= j < pos ==> (#[trigger] b.objects@[j]).prio() <= p,
            decreases n - pos,
        {
            pos = pos + 1;
        }
        let ghost before = b.objects@;
        b.objects.insert(pos, object);
        proof {
            vstd::seq_lib::to_multiset_insert(before, pos as int, object);
            let after = b.objects@;
            assert(after == before.insert(pos as int, object));
            assert forall|i: int| 0 <= i < after.len() implies #[trigger] after[i].wf() by {
                if i < pos {
                    assert(after[i] == before[i]);
                } else if i > pos {
                    assert(after[i] == before[i - 1]);
                }
            }
            assert(all_wf(after));
            assert forall|i: int, j: int| 0 <= i < j < after.len() implies prios_of(after)[i] <= prios_of(after)[j] by {
                let pi = if i < pos { before[i].prio() } else if i == pos { p } else { before[i - 1].prio() };
                let pj = if j < pos { before[j].prio() } else if j == pos { p } else { before[j - 1].prio() };
                assert(prios_of(after)[i] == pi);
                assert(prios_of(after)[j] == pj);
                if i < pos && j > pos {
                    assert(prios_of(before)[i] <= prios_of(before)[j - 1]);
                } else if i > pos {
                    assert(prios_of(before)[i - 1] <= prios_of(before)[j - 1]);
                } else if j < pos {
                    assert(prios_of(before)[i] <= prios_of(before)[j]);
                } else if i == pos {
                    if pos < n {
                        assert(!(before[pos as int].prio() <= p));
                        assert(prios_of(before)[pos as int] <= prios_of(before)[j - 1]);
                    }
                }
            }
        }
        b
    }

    /// The kernel.
    pub fn build(self) -> (k: QvKernel<B>)
        requires
            self.wf(),
        ensures
            k.wf(),
            k.cfg() == self.cfg(),
            k.objects() == self.objects(),
            k.table() == self.table(),
            k.traces() == self.traces(),
            k.ceiling() == 0,
            k.prev() == 0,
            !k.stopped(),
            k.records() == Seq::<KernelRecord>::empty(),
    {
        QvKernel {
            config: self.config,
            objects: self.objects,
            prev_prio: 0,
            sched_ceiling: 0,
            stop_flag: false,
            pubsub: self.pubsub,
            tracing: self.tracing,
            records: Vec::new(),
        }
    }
}

/// Cooperative, non-preemptive kernel: dispatches one event at a time to the
/// highest-priority active object with queued events, run to completion,
/// unless a scheduler lock ceiling holds it back.
///
/// Active objects send each other events through their context; the kernel
/// delivers them by id (to the last registered object with that id) after
/// each handler returns, dropping those for unknown ids.
pub struct QvKernel<B: ActiveBehavior> {
    config: KernelConfig,
    objects: Vec<ActiveObject<B>>,
    prev_prio: u8,
    sched_ceiling: u8,
    stop_flag: bool,
    pubsub: Option<PubSubTable>,
    tracing: bool,
    records: Vec<KernelRecord>,
}

impl<B: ActiveBehavior> QvKernel<B> {
    /// Well-formedness: objects well-formed and ordered by priority.
    pub closed spec fn wf(&self) -> bool {
        &&& all_wf(self.objects@)
        &&& sorted_by_prio(prios_of(self.objects@))
        &&& (self.pubsub matches Some(t) ==> t.wf())
    }

    /// Registered objects, in ascending priority.
    pub closed spec fn objects(&self) -> Seq<ActiveObject<B>> {
        self.objects@
    }

    /// The configuration.
    pub closed spec fn cfg(&self) -> KernelConfig {
        self.config
    }

    /// The subscription table, if any.
    pub closed spec fn table(&self) -> Option<PubSubTable> {
        self.pubsub
    }

    /// Whether trace records are kept.
    pub closed spec fn traces(&self) -> bool {
        self.tracing
    }

    /// Scheduler lock ceiling (0: unlocked).
    pub closed spec fn ceiling(&self) -> u8 {
        self.sched_ceiling
    }

    /// Priority that ran last (0: idle).
    pub closed spec fn prev(&self) -> u8 {
        self.prev_prio
    }

    /// Whether a stop was requested.
    pub closed spec fn stopped(&self) -> bool {
        self.stop_flag
    }

    /// Trace records not yet taken.
    pub closed spec fn records(&self) -> Seq<KernelRecord> {
        self.records@
    }

    /// Trace records after producing `r` (kept only while tracing).
    pub open spec fn noted(&self, r: KernelRecord) -> Seq<KernelRecord> {
        if self.traces() {
            self.records().push(r)
        } else {
            self.records()
        }
    }

    /// A builder with the default configuration.
    pub fn builder() -> (b: KernelBuilder<B>)
        ensures
            b.wf(),
            default_config(b.cfg()),
            b.objects() == Seq::<ActiveObject<B>>::empty(),
            b.table() is None,
            !b.traces(),
    {
        KernelBuilder::new(KernelConfig::default())
    }

    /// A builder with `config`.
    pub fn with_config(config: KernelConfig) -> (b: KernelBuilder<B>)
        ensures
            b.wf(),
            b.cfg() == config,
            b.objects() == Seq::<ActiveObject<B>>::empty(),
            b.table() is None,
            !b.traces(),
    {
        KernelBuilder::new(config)
    }

    /// The configuration.
    pub fn config(&self) -> (c: &KernelConfig)
        ensures
            *c == self.cfg(),
    {
        &self.config
    }

    /// Number of registered objects.
    pub fn len(&self) -> (n: usize)
        ensures
            n == self.objects().len(),
    {
        self.objects.len()
    }

    /// The object at position `i` (ascending priority).
    pub fn object(&self, i: usize) -> (o: &ActiveObject<B>)
        requires
            i < self.objects().len(),
        ensures
            *o == self.objects()[i as int],
    {
        &self.objects[i]
    }

    /// Position of the object events for `id` are delivered to.
    pub fn position_of(&self, id: ActiveObjectId) -> (r: Option<usize>)
        ensures
            r matches Some(i) ==> slot_of(ids_of(self.objects()), id) == Some(i as int),
            r is None ==> slot_of(ids_of(self.objects()), id) is None,
    {
        let n = self.objects.len();
        let mut k = n;
        while k > 0
            invariant
                n == self.objects@.len(),
                k <= n,
                forall|j: int| k <= j < n ==> #[trigger] ids_of(self.objects@)[j] != id,
            decreases k,
        {
            k = k - 1;
            if self.objects[k].id() == id {
                proof {
                    lemma_slot_of(ids_of(self.objects@), id, k as int);
                }
                return Some(k);
            }
        }
        proof {
            if exists|i: int| is_last_with(ids_of(self.objects@), id, i) {
                let c = choose|i: int| is_last_with(ids_of(self.objects@), id, i);
                assert(ids_of(self.objects@)[c] != id);
            }
        }
        None
    }

    /// The behaviour of the object at position `i`, mutably.
    pub fn behavior_mut(&mut self, i: usize) -> (b: &mut B)
        requires
            old(self).wf(),
            i < old(self).objects().len(),
        ensures
            *b == old(self).objects()[i as int].beh(),
            final(self).objects().len() == old(self).objects().len(),
            final(self).objects()[i as int].beh() == *final(b),
            ids_of(final(self).objects()) == ids_of(old(self).objects()),
            prios_of(final(self).objects()) == prios_of(old(self).objects()),
            queues_of(final(self).objects()) == queues_of(old(self).objects()),
            forall|j: int| 0 <= j < old(self).objects().len() && j != i ==> #[trigger] final(self).objects()[j] == old(self).objects()[j],
            final(self).cfg() == old(self).cfg(),
            final(self).table() == old(self).table(),
            final(self).traces() == old(self).traces(),
            final(self).ceiling() == old(self).ceiling(),
            final(self).prev() == old(self).prev(),
            final(self).stopped() == old(self).stopped(),
            final(self).records() == old(self).records(),
    {
        self.objects[i].behavior_mut()
    }

    /// Queues `event` for the object with id `target`; fails when none is
    /// registered.
    pub fn post(&mut self, target: ActiveObjectId, event: DynEvent) -> (r: Result<(), KernelError>)
        requires
            old(self).wf(),
        ensures
            final(self).wf(),
            final(self).objects().len() == old(self).objects().len(),
            ids_of(final(self).objects()) == ids_of(old(self).objects()),
            prios_of(final(self).objects()) == prios_of(old(self).objects()),
            queues_of(final(self).objects()) == deliver_one(
                queues_of(old(self).objects()),
                ids_of(old(self).objects()),
                (target, event),
            ),
            r is Ok <==> slot_of(ids_of(old(self).objects()), target) is Some,
            r is Err ==> r == Err::<(), KernelError>(KernelError::NotFound(target)),
            forall|j: int| 0 <= j < old(self).objects().len() ==> (#[trigger] final(self).objects()[j]).beh() == old(self).objects()[j].beh(),
            final(self).cfg() == old(self).cfg(),
            final(self).table() == old(self).table(),
            final(self).traces() == old(self).traces(),
            final(self).ceiling() == old(self).ceiling(),
            final(self).prev() == old(self).prev(),
            final(self).stopped() == old(self).stopped(),
            final(self).records() == old(self).records(),
    {
        match self.position_of(target) {
            Some(i) => {
                self.post_at(i, event);
                Ok(())
            },
            None => {
                proof {
                    assert(queues_of(self.objects@) =~= deliver_one(
                        queues_of(old(self).objects()),
                        ids_of(old(self).objects()),
                        (target, event),
                    ));
                }
                Err(KernelError::NotFound(target))
            },
        }
    }

    /// Queues `event` at the back of the object at position `i`.
    fn post_at(&mut self, i: usize, event: DynEvent)
        requires
            old(self).wf(),
            i < old(self).objects().len(),
        ensures
            final(self).wf(),
            final(self).objects().len() == old(self).objects().len(),
            ids_of(final(self).objects()) == ids_of(old(self).objects()),
            prios_of(final(self).objects()) == prios_of(old(self).objects()),
            queues_of(final(self).objects()) == queues_of(old(self).objects()).update(
                i as int,
                queues_of(old(self).objects())[i as int].push(event),
            ),
            forall|j: int| 0 <= j < old(self).objects().len() ==> (#[trigger] final(self).objects()[j]).sent() == old(self).objects()[j].sent(),
            forall|j: int| 0 <= j < old(self).objects().len() ==> (#[trigger] final(self).objects()[j]).beh() == old(self).objects()[j].beh(),
            final(self).cfg() == old(self).cfg(),
            final(self).table() == old(self).table(),
            final(self).traces() == old(self).traces(),
            final(self).ceiling() == old(self).ceiling(),
            final(self).prev() == old(self).prev(),
            final(self).stopped() == old(self).stopped(),
            final(self).records() == old(self).records(),
    {
        let ghost before = self.objects@;
        let mut ao = self.objects.remove(i);
        proof {
            assert(ao == before[i as int]);
        }
        ao.post(event);
        self.objects.insert(i, ao);
        proof {
            let after = self.objects@;
            assert(after =~= before.update(i as int, ao));
            assert forall|j: int| 0 <= j < after.len() implies #[trigger] after[j].wf() by {
                if j != i {
                    assert(after[j] == before[j]);
                }
            }
            assert(ids_of(after) =~= ids_of(before));
            assert(prios_of(after) =~= prios_of(before));
            assert(queues_of(after) =~= queues_of(before).update(i as int, queues_of(before)[i as int].push(event)));
        }
    }

    /// Delivers addressed events in order; events for unknown ids are
    /// dropped.
    fn route(&mut self, msgs: Vec<(ActiveObjectId, DynEvent)>)
        requires
            old(self).wf(),
        ensures
            final(self).wf(),
            final(self).objects().len() == old(self).objects().len(),
            ids_of(final(self).objects()) == ids_of(old(self).objects()),
            prios_of(final(self).objects()) == prios_of(old(self).objects()),
            queues_of(final(self).objects()) == deliver(
                queues_of(old(self).objects()),
                ids_of(old(self).objects()),
                msgs@,
            ),
            forall|j: int| 0 <= j < old(self).objects().len() ==> (#[trigger] final(self).objects()[j]).beh() == old(self).objects()[j].beh(),
            final(self).cfg() == old(self).cfg(),
            final(self).table() == old(self).table(),
            final(self).traces() == old(self).traces(),
            final(self).ceiling() == old(self).ceiling(),
            final(self).prev() == old(self).prev(),
            final(self).stopped() == old(self).stopped(),
            final(self).records() == old(self).records(),
    {
        let n = msgs.len();
        let mut k: usize = 0;
        assert(msgs@.subrange(0, n as int) =~= msgs@);
        while k < n
            invariant
                old(self).wf(),
                self.wf(),
                n == msgs@.len(),
                k <= n,
                self.objects@.len() == old(self).objects@.len(),
                ids_of(self.objects()) == ids_of(old(self).objects()),
                prios_of(self.objects()) == prios_of(old(self).objects()),
                deliver(queues_of(self.objects()), ids_of(old(self).objects()), msgs@.subrange(k as int, n as int))
                    == deliver(queues_of(old(self).objects()), ids_of(old(self).objects()), msgs@),
                self.cfg() == old(self).cfg(),
                self.table() == old(self).table(),
                self.traces() == old(self).traces(),
                self.ceiling() == old(self).ceiling(),
                self.prev() == old(self).prev(),
                self.stopped() == old(self).stopped(),
                self.records() == old(self).records(),
                forall|j: int| 0 <= j < old(self).objects().len() ==> (#[trigger] self.objects()[j]).beh() == old(self).objects()[j].beh(),
            decreases n - k,
        {
            let ghost rest = msgs@.subrange(k as int, n as int);
            let ghost qs = queues_of(self.objects());
            proof {
                assert(rest.drop_first() =~= msgs@.subrange(k + 1, n as int));
                assert(rest[0] == msgs@[k as int]);
            }
            let target = msgs[k].0;
            let event = msgs[k].1.retarget(msgs[k].1.header.signal);
            assert(event == msgs@[k as int].1);
            let _ = self.post(target, event);
            k = k + 1;
        }
        proof {
            assert(msgs@.subrange(n as int, n as int) =~= Seq::<(ActiveObjectId, DynEvent)>::empty());
        }
    }

    /// Position of the highest-priority object with queued events.
    fn top_ready_index(&self) -> (r: Option<usize>)
        ensures
            r matches Some(i) ==> top_ready(queues_of(self.objects())) == Some(i as int) && i
                < self.objects().len() && self.objects()[i as int].queued().len() > 0,
            r is None ==> top_ready(queues_of(self.objects())) is None,
    {
        let n = self.objects.len();
        let mut k = n;
        while k > 0
            invariant
                n == self.objects@.len(),
                k <= n,
                forall|j: int| k <= j < n ==> #[trigger] queues_of(self.objects@)[j].len() == 0,
            decreases k,
        {
            k = k - 1;
            if self.objects[k].has_events() {
                proof {
                    lemma_top_ready(queues_of(self.objects@), k as int);
                }
                return Some(k);
            }
        }
        proof {
            let qs = queues_of(self.objects@);
            if exists|i: int| 0 <= i < qs.len() && qs[i].len() > 0 {
                let c = choose|i: int| 0 <= i < qs.len() && qs[i].len() > 0;
                assert(qs[c].len() == 0);
            }
        }
        None
    }

    /// Keeps a trace record while tracing.
    fn note(&mut self, r: KernelRecord)
        ensures
            final(self).records() == old(self).noted(r),
            final(self).objects() == old(self).objects(),
            final(self).cfg() == old(self).cfg(),
            final(self).table() == old(self).table(),
            final(self).traces() == old(self).traces(),
            final(self).ceiling() == old(self).ceiling(),
            final(self).prev() == old(self).prev(),
            final(self).stopped() == old(self).stopped(),
    {
        if self.tracing {
            self.records.push(r);
        }
    }

    /// Records going idle after a non-idle priority.
    fn go_idle(&mut self)
        ensures
            final(self).prev() == 0,
            final(self).records() == (if old(self).prev() != 0 {
                old(self).noted(KernelRecord::SchedIdle { prev: old(self).prev() })
            } else {
                old(self).records()
            }),
            final(self).objects() == old(self).objects(),
            final(self).cfg() == old(self).cfg(),
            final(self).table() == old(self).table(),
            final(self).traces() == old(self).traces(),
            final(self).ceiling() == old(self).ceiling(),
            final(self).stopped() == old(self).stopped(),
    {
        if self.prev_prio != 0 {
            let prev = self.prev_prio;
            self.note(KernelRecord::SchedIdle { prev });
            self.prev_prio = 0;
        }
    }

    /// Dispatches one event to the highest-priority object with queued
    /// events, unless its priority is at or below the lock ceiling; `true`
    /// when an event was handled.
    pub fn dispatch_once(&mut self) -> (r: bool)
        requires
            old(self).wf(),
        ensures
            final(self).wf(),
            final(self).objects().len() == old(self).objects().len(),
            ids_of(final(self).objects()) == ids_of(old(self).objects()),
            prios_of(final(self).objects()) == prios_of(old(self).objects()),
            final(self).cfg() == old(self).cfg(),
            final(self).table() == old(self).table(),
            final(self).traces() == old(self).traces(),
            final(self).ceiling() == old(self).ceiling(),
            final(self).stopped() == old(self).stopped(),
            r == (top_ready(queues_of(old(self).objects())) matches Some(i) && prios_of(
                old(self).objects(),
            )[i] > old(self).ceiling()),
            !r ==> final(self).objects() == old(self).objects() && final(self).prev() == 0
                && final(self).records() == (if old(self).prev() != 0 {
                old(self).noted(KernelRecord::SchedIdle { prev: old(self).prev() })
            } else {
                old(self).records()
            }),
            r ==> ({
                let i = top_ready(queues_of(old(self).objects()))->Some_0;
                let p = prios_of(old(self).objects())[i];
                let qs = queues_of(old(self).objects());
                &&& final(self).prev() == p
                &&& final(self).records() == (if p != old(self).prev() {
                    old(self).noted(KernelRecord::SchedNext { prio: p, prev: old(self).prev() })
                } else {
                    old(self).records()
                })
                &&& exists|msgs: Seq<(ActiveObjectId, DynEvent)>|
                    queues_of(final(self).objects()) == #[trigger] deliver(
                        qs.update(i, qs[i].drop_first()),
                        ids_of(old(self).objects()),
                        msgs,
                    )
                &&& exists|c0: ActiveContext, c1: ActiveContext|
                    #![trigger old(self).objects()[i].beh().event_spec(c0, qs[i][0], final(self).objects()[i].beh(), c1)]
                    {
                        &&& c0.owner() == old(self).objects()[i].ident()
                        &&& c0.sent() == Seq::<(ActiveObjectId, DynEvent)>::empty()
                        &&& old(self).objects()[i].beh().event_spec(c0, qs[i][0], final(self).objects()[i].beh(), c1)
                        &&& queues_of(final(self).objects()) == deliver(
                            qs.update(i, qs[i].drop_first()),
                            ids_of(old(self).objects()),
                            old(self).objects()[i].sent() + c1.sent(),
                        )
                    }
            }),
    {
        match self.top_ready_index() {
            Some(i) => {
                let prio = self.objects[i].priority();
                if prio <= self.sched_ceiling {
                    self.go_idle();
                    return false;
                }
                let prev = self.prev_prio;
                if prio != prev {
                    self.note(KernelRecord::SchedNext { prio, prev });
                }
                self.prev_prio = prio;
                let ghost before = self.objects@;
                let ghost qs = queues_of(before);
                let mut ao = self.objects.remove(i);
                proof {
                    assert(ao == before[i as int]);
                }
                let ghost ao0 = ao;
                ao.dispatch_one();
                let ghost ao1 = ao;
                let msgs = ao.take_sent();
                self.objects.insert(i, ao);
                proof {
                    let after = self.objects@;
                    assert(after =~= before.update(i as int, ao));
                    assert forall|j: int| 0 <= j < after.len() implies #[trigger] after[j].wf() by {
                        if j != i {
                            assert(after[j] == before[j]);
                        }
                    }
                    assert(ids_of(after) =~= ids_of(before));
                    assert(prios_of(after) =~= prios_of(before));
                    assert(queues_of(after) =~= qs.update(i as int, qs[i as int].drop_first()));
                }
                let ghost m = msgs@;
                self.route(msgs);
                assert(queues_of(self.objects()) == deliver(qs.update(i as int, qs[i as int].drop_first()), ids_of(before), m));
                assert(before == old(self).objects());
                assert(self.prev() == prio);
                assert(self.records() == (if prio != old(self).prev() {
                    old(self).noted(KernelRecord::SchedNext { prio: prio, prev: old(self).prev() })
                } else {
                    old(self).records()
                }));
                assert(prio == prios_of(old(self).objects())[i as int]);
                assert(exists|msgs: Seq<(ActiveObjectId, DynEvent)>| queues_of(self.objects()) == #[trigger] deliver(
                    qs.update(i as int, qs[i as int].drop_first()), ids_of(old(self).objects()), msgs));
                proof {
                    assert(qs[i as int] == ao0.queued());
                    assert(ao0.queued().len() > 0);
                    let (c0, c1) = choose|c0: ActiveContext, c1: ActiveContext| {
                        &&& c0.owner() == ao0.ident()
                        &&& c0.sent() == Seq::<(ActiveObjectId, DynEvent)>::empty()
                        &&& ao0.beh().event_spec(c0, ao0.queued()[0], ao1.beh(), c1)
                        &&& ao1.sent() == ao0.sent() + c1.sent()
                    };
                    assert(self.objects()[i as int].beh() == ao1.beh());
                    assert(m == ao0.sent() + c1.sent());
                    assert(old(self).objects()[i as int].beh().event_spec(c0, qs[i as int][0], self.objects()[i as int].beh(), c1));
                }
                true
            },
            None => {
                self.go_idle();
                false
            },
        }
    }
}

/// An event with its signal replaced, sharing header fields and payload.
pub open spec fn retargeted(e: DynEvent, signal: Signal) -> DynEvent {
    Event { header: EventHeader { signal, ..e.header }, payload: e.payload }
}

/// Whether a publish of `signal` reaches priority `p` (everyone without a
/// subscription table).
pub open spec fn reaches(table: Option<PubSubTable>, signal: Signal, p: u8) -> bool {
    match table {
        Some(t) => t.subscribed(signal@).contains(p),
        None => true,
    }
}

impl<B: ActiveBehavior> QvKernel<B> {
    /// Starts every object in ascending priority, delivering what each sends
    /// while starting.
    pub fn start(&mut self)
        requires
            old(self).wf(),
        ensures
            final(self).wf(),
            final(self).objects().len() == old(self).objects().len(),
            ids_of(final(self).objects()) == ids_of(old(self).objects()),
            prios_of(final(self).objects()) == prios_of(old(self).objects()),
            exists|msgs: Seq<(ActiveObjectId, DynEvent)>|
                queues_of(final(self).objects()) == #[trigger] deliver(
                    queues_of(old(self).objects()),
                    ids_of(old(self).objects()),
                    msgs,
                ),
            final(self).cfg() == old(self).cfg(),
            final(self).table() == old(self).table(),
            final(self).traces() == old(self).traces(),
            final(self).ceiling() == old(self).ceiling(),
            final(self).prev() == old(self).prev(),
            final(self).stopped() == old(self).stopped(),
            final(self).records() == old(self).records(),
    {
        let n = self.objects.len();
        let mut i: usize = 0;
        let ghost ids = ids_of(old(self).objects());
        let ghost mut all: Seq<(ActiveObjectId, DynEvent)> = Seq::empty();
        assert(deliver(queues_of(old(self).objects()), ids, all) == queues_of(old(self).objects()));
        while i < n
            invariant
                old(self).wf(),
                self.wf(),
                n == self.objects@.len(),
                n == old(self).objects@.len(),
                i <= n,
                ids == ids_of(old(self).objects()),
                ids_of(self.objects()) == ids,
                prios_of(self.objects()) == prios_of(old(self).objects()),
                queues_of(self.objects()) == deliver(queues_of(old(self).objects()), ids, all),
                self.cfg() == old(self).cfg(),
                self.table() == old(self).table(),
                self.traces() == old(self).traces(),
                self.ceiling() == old(self).ceiling(),
                self.prev() == old(self).prev(),
                self.stopped() == old(self).stopped(),
                self.records() == old(self).records(),
            decreases n - i,
        {
            let ghost before = self.objects@;
            let mut ao = self.objects.remove(i);
            proof {
                assert(ao == before[i as int]);
            }
            ao.start();
            let msgs = ao.take_sent();
            self.objects.insert(i, ao);
            proof {
                let after = self.objects@;
                assert(after =~= before.update(i as int, ao));
                assert forall|j: int| 0 <= j < after.len() implies #[trigger] after[j].wf() by {
                    if j != i {
                        assert(after[j] == before[j]);
                    }
                }
                assert(ids_of(after) =~= ids_of(before));
                assert(prios_of(after) =~= prios_of(before));
                assert(queues_of(after) =~= queues_of(before));
            }
            let ghost m = msgs@;
            self.route(msgs);
            proof {
                lemma_deliver_append(queues_of(old(self).objects()), ids, all, m);
                all = all + m;
            }
            i = i + 1;
        }
    }

    /// Delivers `event`, with its signal set to `signal`, to every object
    /// subscribed to `signal` (to every object without a subscription
    /// table), in ascending priority.
    pub fn publish(&mut self, signal: Signal, event: DynEvent)
        requires
            old(self).wf(),
            old(self).table() matches Some(t) ==> signal@ <= t.max_sig() && forall|i: int|
                0 <= i < old(self).objects().len() ==> #[trigger] prios_of(old(self).objects())[i] < 64,
        ensures
            final(self).wf(),
            final(self).objects().len() == old(self).objects().len(),
            ids_of(final(self).objects()) == ids_of(old(self).objects()),
            prios_of(final(self).objects()) == prios_of(old(self).objects()),
            forall|i: int| 0 <= i < old(self).objects().len() ==> #[trigger] queues_of(final(self).objects())[i]
                == if reaches(old(self).table(), signal, prios_of(old(self).objects())[i]) {
                    queues_of(old(self).objects())[i].push(retargeted(event, signal))
                } else {
                    queues_of(old(self).objects())[i]
                },
            final(self).records() == (if old(self).table() is Some {
                old(self).noted(KernelRecord::Publish { signal })
            } else {
                old(self).records()
            }),
            final(self).cfg() == old(self).cfg(),
            final(self).table() == old(self).table(),
            final(self).traces() == old(self).traces(),
            final(self).ceiling() == old(self).ceiling(),
            final(self).prev() == old(self).prev(),
            final(self).stopped() == old(self).stopped(),
    {
        let subscribers: Option<u64> = match &self.pubsub {
            Some(t) => Some(t.subscribers(signal)),
            None => None,
        };
        if subscribers.is_some() {
            self.note(KernelRecord::Publish { signal });
        }
        let ghost rec = self.records();
        let n = self.objects.len();
        let mut i: usize = 0;
        while i < n
            invariant
                old(self).wf(),
                self.wf(),
                n == self.objects@.len(),
                n == old(self).objects@.len(),
                i <= n,
                old(self).table() matches Some(t) ==> signal@ <= t.max_sig() && forall|j: int|
                    0 <= j < n ==> #[trigger] prios_of(old(self).objects())[j] < 64,
                subscribers == (match old(self).table() {
                    Some(t) => Some(t.words()[signal@ as int]),
                    None => None::<u64>,
                }),
                ids_of(self.objects()) == ids_of(old(self).objects()),
                prios_of(self.objects()) == prios_of(old(self).objects()),
                forall|j: int| 0 <= j < i ==> #[trigger] queues_of(self.objects())[j]
                    == if reaches(old(self).table(), signal, prios_of(old(self).objects())[j]) {
                        queues_of(old(self).objects())[j].push(retargeted(event, signal))
                    } else {
                        queues_of(old(self).objects())[j]
                    },
                forall|j: int| i <= j < n ==> #[trigger] queues_of(self.objects())[j] == queues_of(old(self).objects())[j],
                self.records() == rec,
                self.cfg() == old(self).cfg(),
                self.table() == old(self).table(),
                self.traces() == old(self).traces(),
                self.ceiling() == old(self).ceiling(),
                self.prev() == old(self).prev(),
                self.stopped() == old(self).stopped(),
            decreases n - i,
        {
            let prio = self.objects[i].priority();
            assert(prio == prios_of(old(self).objects())[i as int]);
            let deliver = match subscribers {
                Some(bits) => {
                    proof {
                        lemma_bit_test(bits, prio as u64);
                    }
                    (bits & (1u64 << prio)) != 0
                },
                None => true,
            };
            assert(deliver == reaches(old(self).table(), signal, prio));
            if deliver {
                let copy = event.retarget(signal);
                assert(copy == retargeted(event, signal));
                self.post_at(i, copy);
            }
            i = i + 1;
        }
    }

    /// [`QvKernel::post`] from interrupt context.
    pub fn post_from_isr(&mut self, target: ActiveObjectId, event: DynEvent) -> (r: Result<(), KernelError>)
        requires
            old(self).wf(),
        ensures
            final(self).wf(),
            final(self).objects().len() == old(self).objects().len(),
            ids_of(final(self).objects()) == ids_of(old(self).objects()),
            prios_of(final(self).objects()) == prios_of(old(self).objects()),
            queues_of(final(self).objects()) == deliver_one(
                queues_of(old(self).objects()),
                ids_of(old(self).objects()),
                (target, event),
            ),
            r is Ok <==> slot_of(ids_of(old(self).objects()), target) is Some,
            r is Err ==> r == Err::<(), KernelError>(KernelError::NotFound(target)),
            final(self).cfg() == old(self).cfg(),
            final(self).table() == old(self).table(),
            final(self).traces() == old(self).traces(),
            final(self).ceiling() == old(self).ceiling(),
            final(self).prev() == old(self).prev(),
            final(self).stopped() == old(self).stopped(),
            final(self).records() == old(self).records(),
    {
        self.post(target, event)
    }

    /// [`QvKernel::publish`] from interrupt context.
    pub fn publish_from_isr(&mut self, signal: Signal, event: DynEvent)
        requires
            old(self).wf(),
            old(self).table() matches Some(t) ==> signal@ <= t.max_sig() && forall|i: int|
                0 <= i < old(self).objects().len() ==> #[trigger] prios_of(old(self).objects())[i] < 64,
        ensures
            final(self).wf(),
            final(self).objects().len() == old(self).objects().len(),
            ids_of(final(self).objects()) == ids_of(old(self).objects()),
            prios_of(final(self).objects()) == prios_of(old(self).objects()),
            forall|i: int| 0 <= i < old(self).objects().len() ==> #[trigger] queues_of(final(self).objects())[i]
                == if reaches(old(self).table(), signal, prios_of(old(self).objects())[i]) {
                    queues_of(old(self).objects())[i].push(retargeted(event, signal))
                } else {
                    queues_of(old(self).objects())[i]
                },
            final(self).records() == (if old(self).table() is Some {
                old(self).noted(KernelRecord::Publish { signal })
            } else {
                old(self).records()
            }),
            final(self).cfg() == old(self).cfg(),
            final(self).table() == old(self).table(),
            final(self).traces() == old(self).traces(),
            final(self).ceiling() == old(self).ceiling(),
            final(self).prev() == old(self).prev(),
            final(self).stopped() == old(self).stopped(),
    {
        self.publish(signal, event)
    }

    /// Whether any object has queued events.
    pub fn has_pending_work(&self) -> (r: bool)
        ensures
            r == exists|i: int| 0 <= i < self.objects().len() && (#[trigger] self.objects()[i]).queued().len() > 0,
    {
        match self.top_ready_index() {
            Some(i) => true,
            None => {
                proof {
                    let qs = queues_of(self.objects());
                    if exists|i: int| 0 <= i < self.objects().len() && (#[trigger] self.objects()[i]).queued().len() > 0 {
                        let c = choose|i: int| 0 <= i < self.objects().len() && (#[trigger] self.objects()[i]).queued().len() > 0;
                        assert(qs[c].len() > 0);
                    }
                }
                false
            },
        }
    }

    /// Dispatches until nothing is ready to run (at most `usize::MAX`
    /// dispatches); returns how many events were handled.
    pub fn run_until_idle(&mut self) -> (count: usize)
        requires
            old(self).wf(),
        ensures
            final(self).wf(),
            final(self).objects().len() == old(self).objects().len(),
            ids_of(final(self).objects()) == ids_of(old(self).objects()),
            prios_of(final(self).objects()) == prios_of(old(self).objects()),
            final(self).cfg() == old(self).cfg(),
            final(self).table() == old(self).table(),
            final(self).traces() == old(self).traces(),
            final(self).ceiling() == old(self).ceiling(),
            final(self).stopped() == old(self).stopped(),
            count < usize::MAX ==> !(top_ready(queues_of(final(self).objects())) matches Some(i)
                && prios_of(final(self).objects())[i] > final(self).ceiling()),
    {
        let mut count: usize = 0;
        loop
            invariant
                old(self).wf(),
                self.wf(),
                self.objects().len() == old(self).objects().len(),
                ids_of(self.objects()) == ids_of(old(self).objects()),
                prios_of(self.objects()) == prios_of(old(self).objects()),
                self.cfg() == old(self).cfg(),
                self.table() == old(self).table(),
                self.traces() == old(self).traces(),
                self.ceiling() == old(self).ceiling(),
                self.stopped() == old(self).stopped(),
            ensures
                self.wf(),
                self.objects().len() == old(self).objects().len(),
                ids_of(self.objects()) == ids_of(old(self).objects()),
                prios_of(self.objects()) == prios_of(old(self).objects()),
                self.cfg() == old(self).cfg(),
                self.table() == old(self).table(),
                self.traces() == old(self).traces(),
                self.ceiling() == old(self).ceiling(),
                self.stopped() == old(self).stopped(),
                count < usize::MAX ==> !(top_ready(queues_of(self.objects())) matches Some(i)
                    && prios_of(self.objects())[i] > self.ceiling()),
            decreases usize::MAX - count,
        {
            if count == usize::MAX {
                break;
            }
            if !self.dispatch_once() {
                break;
            }
            count = count + 1;
        }
        count
    }

    /// Requests the run loop to stop.
    pub fn stop(&mut self)
        ensures
            final(self).stopped(),
            final(self).objects() == old(self).objects(),
            final(self).cfg() == old(self).cfg(),
            final(self).table() == old(self).table(),
            final(self).traces() == old(self).traces(),
            final(self).ceiling() == old(self).ceiling(),
            final(self).prev() == old(self).prev(),
            final(self).records() == old(self).records(),
    {
        self.stop_flag = true;
    }

    /// Clears a stop request (the run loop does so when it starts).
    pub fn clear_stop(&mut self)
        ensures
            !final(self).stopped(),
            final(self).objects() == old(self).objects(),
            final(self).cfg() == old(self).cfg(),
            final(self).table() == old(self).table(),
            final(self).traces() == old(self).traces(),
            final(self).ceiling() == old(self).ceiling(),
            final(self).prev() == old(self).prev(),
            final(self).records() == old(self).records(),
    {
        self.stop_flag = false;
    }

    /// Whether a stop was requested.
    pub fn stop_requested(&self) -> (r: bool)
        ensures
            r == self.stopped(),
    {
        self.stop_flag
    }

    /// Raises the lock ceiling to `ceiling` (never lowers it): objects at or
    /// below it are not dispatched until unlocked.
    pub fn lock_scheduler(&mut self, ceiling: u8)
        ensures
            final(self).ceiling() == (if ceiling > old(self).ceiling() { ceiling } else { old(self).ceiling() }),
            final(self).records() == (if ceiling > old(self).ceiling() {
                old(self).noted(KernelRecord::SchedLock { prev: old(self).ceiling(), ceiling })
            } else {
                old(self).records()
            }),
            final(self).objects() == old(self).objects(),
            final(self).cfg() == old(self).cfg(),
            final(self).table() == old(self).table(),
            final(self).traces() == old(self).traces(),
            final(self).prev() == old(self).prev(),
            final(self).stopped() == old(self).stopped(),
    {
        if ceiling > self.sched_ceiling {
            let prev = self.sched_ceiling;
            self.note(KernelRecord::SchedLock { prev, ceiling });
            self.sched_ceiling = ceiling;
        }
    }

    /// Lowers the lock ceiling to zero.
    pub fn unlock_scheduler(&mut self)
        ensures
            final(self).ceiling() == 0,
            final(self).records() == (if old(self).ceiling() != 0 {
                old(self).noted(KernelRecord::SchedUnlock { prev: old(self).ceiling() })
            } else {
                old(self).records()
            }),
            final(self).objects() == old(self).objects(),
            final(self).cfg() == old(self).cfg(),
            final(self).table() == old(self).table(),
            final(self).traces() == old(self).traces(),
            final(self).prev() == old(self).prev(),
            final(self).stopped() == old(self).stopped(),
    {
        if self.sched_ceiling != 0 {
            let prev = self.sched_ceiling;
            self.note(KernelRecord::SchedUnlock { prev });
            self.sched_ceiling = 0;
        }
    }

    /// Subscribes priority `priority` to `signal` (no effect without a
    /// subscription table).
    pub fn subscribe(&mut self, signal: Signal, priority: u8)
        requires
            old(self).wf(),
            old(self).table() matches Some(t) ==> signal@ <= t.max_sig() && priority < 64,
        ensures
            final(self).wf(),
            final(self).objects() == old(self).objects(),
            old(self).table() is None ==> final(self).table() is None && final(self).records() == old(self).records(),
            old(self).table() matches Some(t) ==> final(self).table() matches Some(u) && u.max_sig() == t.max_sig()
                && u.words() == t.words().update(signal@ as int, t.words()[signal@ as int] | (1u64 << priority))
                && u.subscribed(signal@) == t.subscribed(signal@).insert(priority)
                && final(self).records() == old(self).noted(KernelRecord::Subscribe { prio: priority, signal }),
            final(self).cfg() == old(self).cfg(),
            final(self).traces() == old(self).traces(),
            final(self).ceiling() == old(self).ceiling(),
            final(self).prev() == old(self).prev(),
            final(self).stopped() == old(self).stopped(),
    {
        let mut t = match self.pubsub.take() {
            Some(t) => t,
            None => {
                return;
            },
        };
        t.subscribe(signal, priority);
        self.pubsub = Some(t);
        self.note(KernelRecord::Subscribe { prio: priority, signal });
    }

    /// Unsubscribes priority `priority` from `signal` (no effect without a
    /// subscription table).
    pub fn unsubscribe(&mut self, signal: Signal, priority: u8)
        requires
            old(self).wf(),
            old(self).table() matches Some(t) ==> signal@ <= t.max_sig() && priority < 64,
        ensures
            final(self).wf(),
            final(self).objects() == old(self).objects(),
            old(self).table() is None ==> final(self).table() is None && final(self).records() == old(self).records(),
            old(self).table() matches Some(t) ==> final(self).table() matches Some(u) && u.max_sig() == t.max_sig()
                && u.words() == t.words().update(signal@ as int, t.words()[signal@ as int] & !(1u64 << priority))
                && u.subscribed(signal@) == t.subscribed(signal@).remove(priority)
                && final(self).records() == old(self).noted(KernelRecord::Unsubscribe { prio: priority, signal }),
            final(self).cfg() == old(self).cfg(),
            final(self).traces() == old(self).traces(),
            final(self).ceiling() == old(self).ceiling(),
            final(self).prev() == old(self).prev(),
            final(self).stopped() == old(self).stopped(),
    {
        let mut t = match self.pubsub.take() {
            Some(t) => t,
            None => {
                return;
            },
        };
        t.unsubscribe(signal, priority);
        self.pubsub = Some(t);
        self.note(KernelRecord::Unsubscribe { prio: priority, signal });
    }

    /// Unsubscribes priority `priority` from every signal (no effect without
    /// a subscription table).
    pub fn unsubscribe_all(&mut self, priority: u8)
        requires
            old(self).wf(),
            old(self).table() is Some ==> priority < 64,
        ensures
            final(self).wf(),
            final(self).objects() == old(self).objects(),
            old(self).table() is None ==> final(self).table() is None,
            old(self).table() matches Some(t) ==> final(self).table() matches Some(u) && u.max_sig() == t.max_sig()
                && forall|s: u16| s <= u.max_sig() ==> #[trigger] u.subscribed(s) == t.subscribed(s).remove(priority),
            final(self).records() == old(self).records(),
            final(self).cfg() == old(self).cfg(),
            final(self).traces() == old(self).traces(),
            final(self).ceiling() == old(self).ceiling(),
            final(self).prev() == old(self).prev(),
            final(self).stopped() == old(self).stopped(),
    {
        let mut t = match self.pubsub.take() {
            Some(t) => t,
            None => {
                return;
            },
        };
        t.unsubscribe_all(priority);
        self.pubsub = Some(t);
    }

    /// Takes the trace records produced so far.
    pub fn take_records(&mut self) -> (r: Vec<KernelRecord>)
        ensures
            r@ == old(self).records(),
            final(self).records() == Seq::<KernelRecord>::empty(),
            final(self).objects() == old(self).objects(),
            final(self).cfg() == old(self).cfg(),
            final(self).table() == old(self).table(),
            final(self).traces() == old(self).traces(),
            final(self).ceiling() == old(self).ceiling(),
            final(self).prev() == old(self).prev(),
            final(self).stopped() == old(self).stopped(),
    {
        let mut r = Vec::new();
        std::mem::swap(&mut r, &mut self.records);
        r
    }
}

/// Whether `prio` subscribes to `sig` after the changes `ops` (each a
/// subscribe (`true`) or unsubscribe of a priority to a signal), starting
/// from `init`: the last change of that pair decides.
pub open spec fn subscribed_after(init: bool, ops: Seq<(bool, u16, u8)>, sig: u16, prio: u8) -> bool
    decreases ops.len(),
{
    if ops.len() == 0 {
        init
    } else if ops.last().1 == sig && ops.last().2 == prio {
        ops.last().0
    } else {
        subscribed_after(init, ops.drop_last(), sig, prio)
    }
}

/// `h` holds the table before and after each change in `ops`, as
/// [`PubSubTable::subscribe`] and [`PubSubTable::unsubscribe`] leave it.
pub open spec fn subscription_history(h: Seq<PubSubTable>, ops: Seq<(bool, u16, u8)>) -> bool {
    &&& h.len() == ops.len() + 1
    &&& forall|k: int| 0 <= k < ops.len() ==> (#[trigger] h[k + 1]).subscribed(ops[k].1) == (if ops[k].0 {
        h[k].subscribed(ops[k].1).insert(ops[k].2)
    } else {
        h[k].subscribed(ops[k].1).remove(ops[k].2)
    })
    &&& forall|k: int, s: u16| 0 <= k < ops.len() && s != ops[k].1 ==> (#[trigger] h[k + 1].subscribed(s)) == h[k].subscribed(s)
}

/// Law: after any run of subscriptions and unsubscriptions, a priority
/// subscribes to a signal exactly when the last change of that pair was a
/// subscription (or, with none, when it subscribed at the start).
pub proof fn lemma_subscription_history(h: Seq<PubSubTable>, ops: Seq<(bool, u16, u8)>, sig: u16, prio: u8)
    requires
        subscription_history(h, ops),
    ensures
        h.last().subscribed(sig).contains(prio) == subscribed_after(h[0].subscribed(sig).contains(prio), ops, sig, prio),
    decreases ops.len(),
{
    if ops.len() > 0 {
        let n = ops.len() - 1;
        let h2 = h.drop_last();
        let o2 = ops.drop_last();
        assert forall|k: int| 0 <= k < o2.len() implies (#[trigger] h2[k + 1]).subscribed(o2[k].1) == (if o2[k].0 {
            h2[k].subscribed(o2[k].1).insert(o2[k].2)
        } else {
            h2[k].subscribed(o2[k].1).remove(o2[k].2)
        }) by {
            assert(h[k + 1] == h2[k + 1]);
        }
        assert forall|k: int, s: u16| 0 <= k < o2.len() && s != o2[k].1 implies (#[trigger] h2[k + 1].subscribed(s)) == h2[k].subscribed(s) by {
            assert(h[k + 1] == h2[k + 1]);
        }
        lemma_subscription_history(h2, o2, sig, prio);
        assert(h2.last() == h[n]);
        assert(ops.last() == ops[n]);
        assert(h.last() == h[n + 1]);
        if ops[n].1 == sig {
            assert(h[n + 1].subscribed(sig) == (if ops[n].0 {
                h[n].subscribed(sig).insert(ops[n].2)
            } else {
                h[n].subscribed(sig).remove(ops[n].2)
            }));
        } else {
            assert(h[n + 1].subscribed(sig) == h[n].subscribed(sig));
        }
    }
}

/// Delivering two runs of events is delivering them one after the other.
pub proof fn lemma_deliver_append(
    qs: Seq<Seq<DynEvent>>,
    ids: Seq<ActiveObjectId>,
    a: Seq<(ActiveObjectId, DynEvent)>,
    b: Seq<(ActiveObjectId, DynEvent)>,
)
    ensures
        deliver(qs, ids, a + b) == deliver(deliver(qs, ids, a), ids, b),
    decreases a.len(),
{
    if a.len() == 0 {
        assert(a + b =~= b);
    } else {
        assert((a + b).drop_first() =~= a.drop_first() + b);
        assert((a + b)[0] == a[0]);
        lemma_deliver_append(deliver_one(qs, ids, a[0]), ids, a.drop_first(), b);
    }
}

/// Law: on a kernel whose queues are all empty, an event posted to a
/// registered id is what the next dispatch takes: the target becomes the
/// highest ready object with that event alone in its queue, and taking it
/// leaves every queue empty again.
pub proof fn lemma_post_then_dispatch(qs: Seq<Seq<DynEvent>>, ids: Seq<ActiveObjectId>, id: ActiveObjectId, e: DynEvent)
    requires
        qs.len() == ids.len(),
        forall|k: int| 0 <= k < qs.len() ==> (#[trigger] qs[k]).len() == 0,
        slot_of(ids, id) is Some,
    ensures
        ({
            let qs2 = deliver_one(qs, ids, (id, e));
            let i = slot_of(ids, id)->Some_0;
            &&& top_ready(qs2) == Some(i)
            &&& qs2[i] == seq![e]
            &&& qs2.update(i, qs2[i].drop_first()) == qs
        }),
{
    let i = slot_of(ids, id)->Some_0;
    let w = choose|k: int| is_last_with(ids, id, k);
    assert(is_last_with(ids, id, w));
    lemma_slot_of(ids, id, w);
    let qs2 = deliver_one(qs, ids, (id, e));
    assert(qs2 == qs.update(i, qs[i].push(e)));
    assert(qs2[i] =~= seq![e]);
    assert forall|j: int| i < j < qs2.len() implies #[trigger] qs2[j].len() == 0 by {
        assert(qs2[j] == qs[j]);
    }
    lemma_top_ready(qs2, i);
    assert(qs[i].len() == 0);
    assert(qs[i] =~= Seq::<DynEvent>::empty());
    assert(qs2[i].drop_first() =~= Seq::<DynEvent>::empty());
    assert(qs2.update(i, qs2[i].drop_first()) =~= qs);
}

} // verus!
