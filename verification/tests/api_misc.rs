use qp_rs::comms::error::CommsError;
use qp_rs::qf::active::{new_active_object, ActiveContext, ActiveObjectId, SignalHandler};
use qp_rs::qf::event::{assert_no_overlap, blocks_are_disjoint, DynEvent, EventHeader, Signal, SignalBlock};
use qp_rs::qf::hsm::{QHsm, QHsmResult};
use qp_rs::qf::kernel::{KernelRecord, QvKernel};
use qp_rs::qf::time::{TimeEvent, TimeEventConfig, TimeEventTraceInfo};
use qp_rs::qk::kernel::QkKernel;
use qp_rs::qk::scheduler::{QkScheduler, SchedStatus};

struct Quiet;

impl SignalHandler for Quiet {
    fn handle_signal(&mut self, _signal: Signal, _ctx: &mut ActiveContext) {}
}

#[test]
fn signal_blocks_overlap_detection() {
    let a = SignalBlock::new("app", 10, 5);
    let b = SignalBlock::new("radio", 15, 3);
    let c = SignalBlock::new("clash", 12, 2);
    assert_eq!(a.end(), 15);
    assert!(blocks_are_disjoint(&[a, b]));
    assert!(!blocks_are_disjoint(&[a, b, c]));
    assert_no_overlap(&[a, b]);
}

#[test]
fn header_and_time_config_builders() {
    let h = EventHeader::new(Signal::from_raw(5)).with_pool(2).with_ref_count(3);
    assert_eq!(h.signal, Signal::from_raw(5));
    assert_eq!(h.pool_id, Some(2));
    assert_eq!(h.ref_count, 3);

    let cfg = TimeEventConfig::new(Signal::from_raw(7)).with_period(4).with_tick_rate(1);
    assert_eq!(cfg.interval_ticks, Some(4));
    assert_eq!(cfg.tick_rate, 1);

    let mut te = TimeEvent::new(ActiveObjectId::new(1), cfg);
    te.set_trace_meta(TimeEventTraceInfo { time_event_addr: 0xAA, target_addr: 0xBB, tick_rate: 1 });
    assert_eq!(te.tick_rate(), 1);
    assert!(!te.is_armed());
}

#[test]
fn errors_describe_themselves() {
    assert_eq!(CommsError::BufferTooSmall.describe(), "buffer too small");
    assert_eq!(CommsError::NothingReceived.describe(), "nothing received");
    assert_eq!(CommsError::TableFull.describe(), "table full");
}

#[test]
fn top_state_ignores_everything() {
    let e = DynEvent::empty_dyn(Signal::from_raw(42));
    assert_eq!(QHsm::<qp_rs::blinky::Blinky>::top_state(&e), QHsmResult::Ignored);
}

#[test]
fn traced_kernel_records_publish_and_scheduling() {
    let mut kernel = QvKernel::builder()
        .ps_init(20)
        .with_tracing()
        .register(new_active_object(ActiveObjectId::new(1), 3, Quiet))
        .build();
    kernel.start();
    kernel.subscribe(Signal::from_raw(8), 3);
    kernel.publish(Signal::from_raw(8), DynEvent::empty_dyn(Signal::from_raw(8)));
    kernel.run_until_idle();
    let recs = kernel.take_records();
    assert!(recs.contains(&KernelRecord::Subscribe { prio: 3, signal: Signal::from_raw(8) }));
    assert!(recs.contains(&KernelRecord::Publish { signal: Signal::from_raw(8) }));
    assert!(recs.contains(&KernelRecord::SchedNext { prio: 3, prev: 0 }));
    assert!(kernel.take_records().is_empty());
}

#[test]
fn preemption_candidate_plans_the_highest_ready() {
    let mut s = QkScheduler::new();
    s.configure_active(2, 2);
    assert_eq!(s.preemption_candidate(), None);
    s.mark_ready(1);
    s.mark_ready(5);
    assert_eq!(s.preemption_candidate(), Some(5));
    assert_eq!(s.next_priority(), 5);
    s.complete_execution(5);
}

#[test]
fn qk_run_until_idle_counts_preemption_chains() {
    let a = ActiveObjectId::new(1);
    let b = ActiveObjectId::new(2);
    let mut kernel = QkKernel::builder()
        .register(new_active_object(a, 2, Quiet))
        .register(new_active_object(b, 5, Quiet))
        .build()
        .expect("kernel should build");
    kernel.start();
    assert_eq!(kernel.run_until_idle(), 0);
    kernel.post(a, DynEvent::empty_dyn(Signal::from_raw(1))).expect("post");
    kernel.post(b, DynEvent::empty_dyn(Signal::from_raw(2))).expect("post");
    assert_eq!(kernel.run_until_idle(), 1);
    assert!(!kernel.has_pending_work());
    assert_eq!(kernel.run_until_idle(), 0);
}

#[test]
fn qk_publish_and_run_reports_whether_anything_ran() {
    let mut empty: QkKernel<Quiet> = QkKernel::builder().build().expect("kernel should build");
    empty.start();
    assert_eq!(empty.publish_and_run(Signal::from_raw(9), DynEvent::empty_dyn(Signal::from_raw(0))), 0);

    let a = ActiveObjectId::new(3);
    let mut kernel = QkKernel::builder().register(new_active_object(a, 4, Quiet)).build().expect("kernel should build");
    kernel.start();
    assert_eq!(kernel.publish_and_run(Signal::from_raw(9), DynEvent::empty_dyn(Signal::from_raw(0))), 1);
    assert!(!kernel.has_pending_work());
}

#[test]
fn qk_unlock_restores_the_saved_ceiling() {
    let a = ActiveObjectId::new(4);
    let mut kernel = QkKernel::builder().register(new_active_object(a, 3, Quiet)).build().expect("kernel should build");
    kernel.start();
    let status = kernel.lock_scheduler(10);
    assert_eq!(status, SchedStatus::Locked(0));
    assert_eq!(kernel.lock_scheduler(5), SchedStatus::Unlocked);
    kernel.unlock_scheduler(status);
    kernel.unlock_scheduler(SchedStatus::Unlocked);
    assert_eq!(kernel.lock_scheduler(5), SchedStatus::Locked(0));
}
