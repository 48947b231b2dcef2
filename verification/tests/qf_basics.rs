use qp_rs::qf::active::{new_active_object, ActiveBehavior, ActiveContext, ActiveObjectId};
use qp_rs::qf::dis::{decrement_word, increment_word, pack_count, unpack_count, Dis, Dup};
use qp_rs::qf::equeue::{defer, flush_deferred, recall, QEQueue};
use qp_rs::qf::event::{DynEvent, Payload, Signal};
use qp_rs::qf::fusa::{q_assert, q_ensure, q_error, q_invariant, q_require, FaultKind};
use qp_rs::qf::isr::IsrNesting;
use qp_rs::qf::kernel::{KernelConfig, QvKernel};
use qp_rs::qf::priospec::{q_prio, QPrioSpec};

fn ev(sig: u16) -> DynEvent {
    DynEvent::empty_dyn(Signal::from_raw(sig))
}

// ── Duplicate (inverse) storage ──────────────────────────────────────────────

#[test]
fn roundtrip_and_update() {
    let mut d = Dis::new(0xA5u8);
    assert!(d.is_intact());
    assert_eq!(d.get(), 0xA5);
    d.set(0x00);
    assert_eq!(d.get(), 0x00);
    assert!(d.is_intact());

    let mut w = Dis::new(0xDEAD_BEEFu32);
    assert_eq!(w.get(), 0xDEAD_BEEF);
    w.set(0);
    assert_eq!(w.get(), 0);
}

#[test]
fn corruption_is_detected_without_faulting() {
    let mut d = Dis::new(42u16);
    assert!(d.is_intact());
    d.corrupt_for_test();
    assert!(!d.is_intact());
}

#[test]
fn dup_roundtrip_and_update() {
    let mut d = Dup::new(0xDEAD_BEEFu32);
    assert!(d.is_intact());
    assert_eq!(d.get(), 0xDEAD_BEEF);
    d.set(0);
    assert_eq!(d.get(), 0);
    assert!(d.is_intact());

    let mut f: Dup<usize> = Dup::new(1);
    assert!(f.is_intact());
    f.set(2);
    assert!(f.is_intact());
    assert_eq!(f.get(), 2);
}

#[test]
fn dup_corruption_is_detected_without_faulting() {
    let mut d = Dup::new(7u32);
    assert!(d.is_intact());
    d.corrupt_with(8);
    assert!(!d.is_intact());
}

#[test]
fn packed_count_steps() {
    let w = pack_count(1);
    assert_eq!(w, 0xFFFE_0001);
    assert_eq!(unpack_count(w), Some(1));
    let w2 = increment_word(w).unwrap();
    let w3 = increment_word(w2).unwrap();
    assert_eq!(unpack_count(w3), Some(3));
    let (w4, before) = decrement_word(w3).unwrap();
    assert_eq!(before, 3);
    assert_eq!(unpack_count(w4), Some(2));
    assert_eq!(unpack_count(0x0000_0001), None);
    assert_eq!(increment_word(0x0000_0001), None);
    assert_eq!(decrement_word(pack_count(0)), None);
    assert_eq!(increment_word(pack_count(u16::MAX)), None);
}

// ── Fault checks ─────────────────────────────────────────────────────────────

#[test]
fn passing_assertions_do_not_fault() {
    assert!(q_require(1 + 1 == 2, "qf_basics", 84).is_ok());
    assert!(q_ensure(true, "qf_basics", 84).is_ok());
    assert!(q_invariant(true, "qf_basics", 42).is_ok());
    assert!(q_assert(2 > 1, "qf_basics", 84).is_ok());
}

#[test]
fn failing_checks_name_their_site() {
    let f = q_require(false, "m", 7).unwrap_err();
    assert_eq!((f.kind, f.module, f.id), (FaultKind::Precondition, "m", 7));
    assert_eq!(q_ensure(false, "m", 8).unwrap_err().kind, FaultKind::Postcondition);
    assert_eq!(q_invariant(false, "m", 9).unwrap_err().kind, FaultKind::Invariant);
    assert_eq!(q_assert(false, "m", 10).unwrap_err().kind, FaultKind::Assertion);
    assert_eq!(q_error("m", 11).kind, FaultKind::Error);
}

// ── Priority specs and interrupt nesting ─────────────────────────────────────

#[test]
fn prio_spec_packs_priority_and_threshold() {
    let p = q_prio(5, 9);
    assert_eq!(p.priority(), 5);
    assert_eq!(p.threshold(), 9);
    assert_eq!(QPrioSpec::priority_only(7).threshold(), 7);
    assert_eq!(QPrioSpec::new(3, 0).threshold(), 3);
}

#[test]
fn isr_nesting_starts_at_zero() {
    let n = IsrNesting::new();
    assert_eq!(n.isr_nesting(), 0);
    assert!(!n.in_isr());
}

#[test]
fn qk_isr_entry_exit_macros_track_nesting() {
    let mut n = IsrNesting::new();
    assert_eq!(n.isr_nesting(), 0);
    n.isr_enter();
    assert_eq!(n.isr_nesting(), 1);
    assert!(n.in_isr());
    n.isr_enter();
    assert_eq!(n.isr_nesting(), 2);
    n.isr_exit();
    assert_eq!(n.isr_nesting(), 1);
    n.isr_exit();
    assert_eq!(n.isr_nesting(), 0);
    assert!(!n.in_isr());
}

// ── Kernel configuration ─────────────────────────────────────────────────────

#[test]
fn kernel_config_builder() {
    let config = KernelConfig::builder()
        .name("TestKernel")
        .max_active(32)
        .max_event_pools(5)
        .max_tick_rate(10)
        .counter_sizes(2, 2)
        .version(800)
        .build();

    assert_eq!(config.name, "TestKernel");
    assert_eq!(config.max_active, 32);
    assert_eq!(config.max_event_pools, 5);
    assert_eq!(config.max_tick_rate, 10);
    assert_eq!(config.event_queue_ctr_size, 2);
    assert_eq!(config.time_event_ctr_size, 2);
    assert_eq!(config.version, 800);
}

#[test]
fn kernel_config_default() {
    let config = KernelConfig::default();

    assert_eq!(config.name, "QP");
    assert_eq!(config.max_active, 16);
    assert_eq!(config.max_event_pools, 3);
    assert_eq!(config.max_tick_rate, 4);
    assert_eq!(config.version, 740);
}

struct Noop;
impl ActiveBehavior for Noop {
    fn on_start(&mut self, _: &mut ActiveContext) {}
    fn on_event(&mut self, _: &mut ActiveContext, _: DynEvent) {}
}

#[test]
fn kernel_with_custom_config() {
    let config = KernelConfig::builder().name("CustomKernel").max_active(64).build_info("b1").build();

    let kernel: QvKernel<Noop> = QvKernel::with_config(config).build();

    assert_eq!(kernel.config().name, "CustomKernel");
    assert_eq!(kernel.config().max_active, 64);
    assert_eq!(kernel.config().build_info, Some("b1"));
}

// ── Event queues ─────────────────────────────────────────────────────────────

#[test]
fn fifo_order_and_capacity() {
    let mut q = QEQueue::new(4);
    assert!(q.is_empty());
    assert_eq!(q.capacity(), 4);

    assert!(q.post(ev(1), 0));
    assert!(q.post(ev(2), 0));
    assert!(q.post(ev(3), 0));
    assert!(q.post(ev(4), 0));
    assert!(!q.post(ev(5), 0));
    assert_eq!(q.len(), 4);
    assert_eq!(q.get_free(), 0);

    assert_eq!(q.get().unwrap().signal(), Signal::from_raw(1));
    assert_eq!(q.get().unwrap().signal(), Signal::from_raw(2));
    assert_eq!(q.get().unwrap().signal(), Signal::from_raw(3));
    assert_eq!(q.get().unwrap().signal(), Signal::from_raw(4));
    assert!(q.get().is_none());
}

#[test]
fn margin_reserves_slots() {
    let mut q = QEQueue::new(3);
    assert!(q.post(ev(1), 1));
    assert!(q.post(ev(2), 1));
    assert!(!q.post(ev(3), 1));
    assert_eq!(q.len(), 2);
}

#[test]
fn lifo_jumps_the_queue() {
    let mut q = QEQueue::new(3);
    assert!(q.post(ev(1), 0));
    assert!(q.post_lifo(ev(99)));
    assert_eq!(q.get().unwrap().signal(), Signal::from_raw(99));
    assert_eq!(q.get().unwrap().signal(), Signal::from_raw(1));
}

#[test]
fn min_free_watermark_is_sticky() {
    let mut q = QEQueue::new(4);
    assert_eq!(q.get_min(), 4);
    q.post(ev(1), 0);
    q.post(ev(2), 0);
    q.post(ev(3), 0);
    assert_eq!(q.get_min(), 1);
    q.get();
    q.get();
    assert_eq!(q.get_min(), 1);
}

#[test]
fn equeue_new_is_empty() {
    let q = QEQueue::new(4);
    assert!(q.is_empty());
    assert_eq!(q.len(), 0);
    assert_eq!(q.capacity(), 4);
    assert_eq!(q.get_free(), 4);
    assert_eq!(q.get_min(), 4);
}

#[test]
fn equeue_post_and_get_fifo() {
    let mut q = QEQueue::new(4);
    assert!(q.post(ev(1), 0));
    assert!(q.post(ev(2), 0));
    assert_eq!(q.len(), 2);

    let first = q.get().expect("should have event");
    assert_eq!(first.signal(), Signal::from_raw(1));
    let second = q.get().expect("should have event");
    assert_eq!(second.signal(), Signal::from_raw(2));
    assert!(q.get().is_none());
}

#[test]
fn equeue_post_lifo_prepends() {
    let mut q = QEQueue::new(4);
    q.post(ev(1), 0);
    q.post(ev(2), 0);
    q.post_lifo(ev(99));
    assert_eq!(q.get().unwrap().signal(), Signal::from_raw(99));
    assert_eq!(q.get().unwrap().signal(), Signal::from_raw(1));
    assert_eq!(q.get().unwrap().signal(), Signal::from_raw(2));
}

#[test]
fn equeue_capacity_enforced() {
    let mut q = QEQueue::new(2);
    assert!(q.post(ev(1), 0));
    assert!(q.post(ev(2), 0));
    assert!(!q.post(ev(3), 0));
    assert!(!q.post_lifo(ev(3)));
    assert_eq!(q.len(), 2);
}

#[test]
fn equeue_margin_leaves_slots() {
    let mut q = QEQueue::new(4);
    q.post(ev(1), 0);
    q.post(ev(2), 0);
    q.post(ev(3), 0);
    assert!(!q.post(ev(4), 1));
    assert!(q.post(ev(4), 0));
}

#[test]
fn equeue_get_free_and_len() {
    let mut q = QEQueue::new(3);
    assert_eq!(q.get_free(), 3);
    q.post(ev(1), 0);
    assert_eq!(q.get_free(), 2);
    assert_eq!(q.len(), 1);
    q.get();
    assert_eq!(q.get_free(), 3);
    assert_eq!(q.len(), 0);
}

#[test]
fn equeue_watermark_sticky() {
    let mut q = QEQueue::new(4);
    q.post(ev(1), 0);
    q.post(ev(2), 0);
    q.post(ev(3), 0);
    assert_eq!(q.get_min(), 1);
    while q.get().is_some() {}
    assert_eq!(q.get_min(), 1);
    q.post(ev(1), 0);
    q.post(ev(2), 0);
    q.post(ev(3), 0);
    q.post(ev(4), 0);
    assert_eq!(q.get_min(), 0);
}

#[test]
fn equeue_peek_front() {
    let mut q = QEQueue::new(2);
    assert!(!q.peek_front());
    q.post(ev(1), 0);
    assert!(q.peek_front());
    q.get();
    assert!(!q.peek_front());
}

#[test]
fn defer_moves_event_to_eq() {
    let ao = new_active_object(ActiveObjectId(1), 1, Noop);
    let mut eq = QEQueue::new(4);

    assert!(defer(&ao, &mut eq, ev(10)));
    assert!(!eq.is_empty());
    assert!(!ao.has_events(), "deferred event should not be in AO queue");
}

struct Capture(Vec<u16>);
impl ActiveBehavior for Capture {
    fn on_start(&mut self, _: &mut ActiveContext) {}
    fn on_event(&mut self, _: &mut ActiveContext, e: DynEvent) {
        self.0.push(e.signal().raw());
    }
}

#[test]
fn recall_reinjects_lifo() {
    let mut ao = new_active_object(ActiveObjectId(1), 1, Noop);
    let mut eq = QEQueue::new(4);

    ao.post(ev(1));
    defer(&ao, &mut eq, ev(2));
    assert!(recall(&mut ao, &mut eq));
    assert!(eq.is_empty());

    let mut ao2 = new_active_object(ActiveObjectId(2), 2, Capture(Vec::new()));
    ao2.post(ev(1));
    ao2.post_lifo(ev(2));
    ao2.dispatch_one();
    ao2.dispatch_one();
    assert_eq!(ao2.behavior().0, vec![2u16, 1u16], "recalled event dispatched first");
}

#[test]
fn recall_returns_false_when_eq_empty() {
    let mut ao = new_active_object(ActiveObjectId(1), 1, Noop);
    let mut eq = QEQueue::new(4);
    assert!(!recall(&mut ao, &mut eq));
}

#[test]
fn flush_deferred_discards_all() {
    let mut eq = QEQueue::new(4);
    eq.post(ev(1), 0);
    eq.post(ev(2), 0);
    eq.post(ev(3), 0);
    let n = flush_deferred(&mut eq, usize::MAX);
    assert_eq!(n, 3);
    assert!(eq.is_empty());
}

#[test]
fn flush_deferred_respects_limit() {
    let mut eq = QEQueue::new(4);
    eq.post(ev(1), 0);
    eq.post(ev(2), 0);
    eq.post(ev(3), 0);
    let n = flush_deferred(&mut eq, 2);
    assert_eq!(n, 2);
    assert_eq!(eq.len(), 1);
}

#[test]
fn defer_full_queue_returns_false() {
    let ao = new_active_object(ActiveObjectId(1), 1, Noop);
    let mut eq = QEQueue::new(2);
    assert!(defer(&ao, &mut eq, ev(1)));
    assert!(defer(&ao, &mut eq, ev(2)));
    assert!(!defer(&ao, &mut eq, ev(3)), "full queue should reject");
}

// ── Events ───────────────────────────────────────────────────────────────────

#[test]
fn retarget_shares_payload_and_keeps_header() {
    let e = DynEvent::with_payload(Signal::from_raw(9), Payload::Word(77));
    let r = e.retarget(Signal::from_raw(12));
    assert_eq!(r.signal(), Signal::from_raw(12));
    assert_eq!(r.header.pool_id, e.header.pool_id);
    assert_eq!(r.header.ref_count, 1);
    assert!(std::sync::Arc::ptr_eq(&r.payload, &e.payload));
    assert!(matches!(*r.payload, Payload::Word(77)));
}
