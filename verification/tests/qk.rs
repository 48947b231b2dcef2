use std::sync::{Arc, Mutex};

use qp_rs::qf::active::{new_active_object, ActiveContext, ActiveObject, ActiveObjectId, SignalHandler};
use qp_rs::qf::event::{DynEvent, Signal};
use qp_rs::qf::time::{TimeEvent, TimeEventConfig};
use qp_rs::qk::kernel::{QkKernel, QkKernelError};
use qp_rs::qk::scheduler::{QkScheduler, ReadySet, SchedNote, SchedStatus};
use qp_rs::qk::time::QkTimerWheel;

type Log = Arc<Mutex<Vec<(ActiveObjectId, Signal)>>>;

#[derive(Clone)]
struct Recorder {
    id: ActiveObjectId,
    log: Log,
}

impl Recorder {
    fn new(id: ActiveObjectId, log: Log) -> Self {
        Self { id, log }
    }
}

impl SignalHandler for Recorder {
    fn handle_signal(&mut self, signal: Signal, _ctx: &mut ActiveContext) {
        self.log.lock().unwrap().push((self.id, signal));
    }
}

fn sig(n: u16) -> Signal {
    Signal::from_raw(n)
}

fn ev(n: u16) -> DynEvent {
    DynEvent::empty_dyn(sig(n))
}

fn build_kernel(object: ActiveObject<Recorder>) -> QkKernel<Recorder> {
    QkKernel::builder().register(object).build().expect("kernel should build")
}

// ── Preemptive kernel ────────────────────────────────────────────────────────

#[test]
fn schedules_highest_priority_first() {
    let log = Arc::new(Mutex::new(Vec::new()));
    let low_id = ActiveObjectId::new(1);
    let high_id = ActiveObjectId::new(2);

    let low = new_active_object(low_id, 2, Recorder::new(low_id, Arc::clone(&log)));
    let high = new_active_object(high_id, 5, Recorder::new(high_id, Arc::clone(&log)));

    let mut kernel = QkKernel::builder().register(low).register(high).build().expect("kernel should build");
    kernel.start();

    kernel.post(low_id, ev(1)).expect("low prio post");
    kernel.post(high_id, ev(2)).expect("high prio post");

    kernel.run_until_idle();

    let events = log.lock().unwrap();
    assert_eq!(events.len(), 2);
    assert_eq!(events[0], (high_id, sig(2)));
    assert_eq!(events[1], (low_id, sig(1)));
}

#[test]
fn preemption_threshold_blocks_lower_priorities() {
    let log = Arc::new(Mutex::new(Vec::new()));
    let base_id = ActiveObjectId::new(1);
    let mid_id = ActiveObjectId::new(2);
    let high_id = ActiveObjectId::new(3);

    let base_prio = 2;
    let mid_prio = 3;
    let high_prio = 6;

    let base = new_active_object(base_id, base_prio, Recorder::new(base_id, Arc::clone(&log)));
    let mid = new_active_object(mid_id, mid_prio, Recorder::new(mid_id, Arc::clone(&log)));
    let high = new_active_object(high_id, high_prio, Recorder::new(high_id, Arc::clone(&log)));

    let mut kernel = QkKernel::builder()
        .register_with_threshold(base, 4)
        .register(mid)
        .register(high)
        .build()
        .expect("kernel should build");
    kernel.start();

    kernel.configure_active(base_prio, 4);

    kernel.post(mid_id, ev(1)).expect("mid prio post");
    kernel.post(high_id, ev(2)).expect("high prio post");

    assert!(kernel.dispatch_once(), "high priority should preempt");

    {
        let entries = log.lock().unwrap();
        assert_eq!(entries.len(), 1);
        assert_eq!(entries[0], (high_id, sig(2)));
    }

    assert!(kernel.scheduler().is_ready(mid_prio));
}

#[test]
fn post_and_run_dispatches_event() {
    let log = Arc::new(Mutex::new(Vec::new()));
    let ao_id = ActiveObjectId::new(4);
    let ao = new_active_object(ao_id, 3, Recorder::new(ao_id, Arc::clone(&log)));

    let mut kernel = build_kernel(ao);
    kernel.start();

    kernel.post_and_run(ao_id, ev(9)).expect("post should succeed");

    let entries = log.lock().unwrap();
    assert_eq!(entries.as_slice(), &[(ao_id, sig(9))]);
}

#[test]
fn unlock_scheduler_triggers_pending_work() {
    let log = Arc::new(Mutex::new(Vec::new()));
    let high_id = ActiveObjectId::new(5);
    let high = new_active_object(high_id, 6, Recorder::new(high_id, Arc::clone(&log)));

    let mut kernel = build_kernel(high);
    kernel.start();

    let status = kernel.lock_scheduler(6);
    assert!(matches!(status, SchedStatus::Locked(_)));

    kernel.post(high_id, ev(11)).expect("post should succeed");

    assert!(!kernel.dispatch_once(), "lock ceiling should block scheduling");

    kernel.unlock_scheduler(status);

    let entries = log.lock().unwrap();
    assert_eq!(entries.as_slice(), &[(high_id, sig(11))]);
    assert!(!kernel.scheduler().is_ready(6));
}

#[test]
fn publish_and_run_delivers_to_all_subscribers() {
    let log = Arc::new(Mutex::new(Vec::new()));
    let low_id = ActiveObjectId::new(6);
    let high_id = ActiveObjectId::new(7);

    let low = new_active_object(low_id, 2, Recorder::new(low_id, Arc::clone(&log)));
    let high = new_active_object(high_id, 5, Recorder::new(high_id, Arc::clone(&log)));

    let mut kernel = QkKernel::builder().register(low).register(high).build().expect("kernel should build");
    kernel.start();

    kernel.publish_and_run(sig(42), ev(0));

    let entries = log.lock().unwrap();
    assert_eq!(entries.len(), 2);
    assert_eq!(entries[0], (high_id, sig(42)));
    assert_eq!(entries[1], (low_id, sig(42)));
}

#[test]
fn has_pending_work_tracks_ready_set() {
    let log = Arc::new(Mutex::new(Vec::new()));
    let id = ActiveObjectId::new(8);
    let ao = new_active_object(id, 4, Recorder::new(id, Arc::clone(&log)));

    let mut kernel = build_kernel(ao);
    kernel.start();
    assert!(!kernel.has_pending_work());

    kernel.post(id, ev(1)).expect("post should succeed");
    assert!(kernel.has_pending_work());

    kernel.run_until_idle();
    assert!(!kernel.has_pending_work());
}

#[test]
fn builder_rejects_duplicate_priority_and_post_rejects_unknown_id() {
    let log: Log = Arc::new(Mutex::new(Vec::new()));
    let a = new_active_object(ActiveObjectId::new(1), 3, Recorder::new(ActiveObjectId::new(1), log.clone()));
    let b = new_active_object(ActiveObjectId::new(2), 3, Recorder::new(ActiveObjectId::new(2), log.clone()));
    assert!(matches!(QkKernel::builder().register(a).register(b).build(), Err(QkKernelError::DuplicatePriority(3))));

    let c = new_active_object(ActiveObjectId::new(1), 3, Recorder::new(ActiveObjectId::new(1), log.clone()));
    let mut kernel = build_kernel(c);
    kernel.start();
    assert!(matches!(kernel.post(ActiveObjectId::new(9), ev(1)), Err(QkKernelError::NotFound(_))));
    assert_eq!(kernel.threshold_for(3), 3);
    assert_eq!(kernel.threshold_for(0), 0);
}

// ── Scheduler ────────────────────────────────────────────────────────────────

fn without_switches(notes: Vec<SchedNote>) -> Vec<SchedNote> {
    notes.into_iter().filter(|n| !matches!(n, SchedNote::ContextSwitch(_, _))).collect()
}

fn switches(notes: Vec<SchedNote>) -> Vec<(u8, u8)> {
    notes
        .into_iter()
        .filter_map(|n| match n {
            SchedNote::ContextSwitch(a, b) => Some((a, b)),
            _ => None,
        })
        .collect()
}

#[test]
fn lock_unlock_sequence() {
    let mut scheduler = QkScheduler::new();

    let status = scheduler.lock(5);
    assert_eq!(status, SchedStatus::Locked(0));

    scheduler.unlock(status);

    let recorded = scheduler.take_notes();
    assert_eq!(recorded.len(), 2);
    assert_eq!(recorded[0], SchedNote::Lock(0, 5));
    assert_eq!(recorded[1], SchedNote::Unlock(5, 0));
}

#[test]
fn ready_set_operations() {
    let mut scheduler = QkScheduler::new();
    scheduler.mark_ready(3);
    scheduler.mark_ready(7);
    assert!(scheduler.is_ready(3));
    assert!(scheduler.is_ready(7));
    scheduler.mark_not_ready(3);
    assert!(!scheduler.is_ready(3));
    assert!(scheduler.is_ready(7));
    scheduler.reset_ready();
    assert!(!scheduler.is_ready(7));
}

#[test]
fn plan_and_commit_activation() {
    let mut scheduler = QkScheduler::new();
    scheduler.configure_active(2, 4);
    scheduler.mark_ready(5);
    scheduler.mark_ready(6);

    let decision = scheduler.plan_activation().expect("priority 6 should preempt");
    assert_eq!(decision.next_prio, 6);
    assert_eq!(decision.previous_prio, 2);

    scheduler.commit_activation(&decision, 5);
    assert_eq!(scheduler.current_priority(), 6);
    assert_eq!(scheduler.next_priority(), 0);

    let status = scheduler.lock(6);
    assert!(scheduler.plan_activation().is_none());
    scheduler.unlock(status);

    scheduler.restore_active(2, 4);
    assert_eq!(scheduler.current_priority(), 2);
}

#[test]
fn commit_and_restore_emit_records() {
    let mut scheduler = QkScheduler::new();
    scheduler.configure_active(0, 0);
    scheduler.mark_ready(4);

    let decision = scheduler.plan_activation().expect("priority 4 should be scheduled");
    scheduler.commit_activation(&decision, 2);
    scheduler.restore_active(0, 0);

    let recorded = without_switches(scheduler.take_notes());
    assert_eq!(recorded.len(), 2);
    assert_eq!(recorded[0], SchedNote::Next(4, 0));
    assert_eq!(recorded[1], SchedNote::Idle(4));
}

#[test]
fn context_switch_hook_fires_on_commit_and_restore() {
    let mut scheduler = QkScheduler::new();
    scheduler.configure_active(0, 0);
    scheduler.mark_ready(4);

    let decision = scheduler.plan_activation().expect("priority 4 should be scheduled");
    scheduler.commit_activation(&decision, 2);
    scheduler.restore_active(0, 0);

    assert_eq!(switches(scheduler.take_notes()).as_slice(), &[(0, 4), (4, 0)]);
}

#[test]
fn context_switch_hook_silent_when_priority_unchanged() {
    let mut scheduler = QkScheduler::new();
    scheduler.configure_active(3, 3);
    scheduler.restore_active(3, 3);

    assert!(switches(scheduler.take_notes()).is_empty());
}

#[test]
fn next_after_dispatch_respects_threshold() {
    let mut scheduler = QkScheduler::new();
    scheduler.configure_active(2, 4);
    scheduler.mark_ready(6);
    scheduler.mark_ready(3);

    let decision = scheduler.plan_activation().expect("priority 6 should preempt");
    scheduler.commit_activation(&decision, 6);
    scheduler.mark_not_ready(6);

    assert!(scheduler.next_after_dispatch(4).is_none(), "threshold should block priority 3");

    let follow_up = scheduler.next_after_dispatch(0).expect("threshold cleared should allow scheduling");
    assert_eq!(follow_up.next_prio, 3);
    assert_eq!(follow_up.previous_prio, 6);
}

#[test]
fn next_after_dispatch_respects_lock_ceiling() {
    let mut scheduler = QkScheduler::new();
    scheduler.configure_active(0, 0);
    scheduler.mark_ready(7);
    scheduler.mark_ready(5);

    let decision = scheduler.plan_activation().expect("priority 7 should preempt");
    scheduler.commit_activation(&decision, 7);
    scheduler.mark_not_ready(7);

    let status = scheduler.lock(5);
    assert!(status.is_locked());
    assert!(scheduler.next_after_dispatch(0).is_none(), "lock ceiling should block priority 5");

    scheduler.unlock(status);

    let follow_up = scheduler.next_after_dispatch(0).expect("lock ceiling cleared should allow scheduling");
    assert_eq!(follow_up.next_prio, 5);
    assert_eq!(follow_up.previous_prio, 7);
}

#[test]
fn has_ready_to_run_reflects_constraints() {
    let mut scheduler = QkScheduler::new();
    scheduler.configure_active(1, 3);
    scheduler.mark_ready(5);

    assert!(scheduler.has_ready_to_run());

    let lock_status = scheduler.lock(5);
    assert!(!scheduler.has_ready_to_run());

    scheduler.unlock(lock_status);
    scheduler.reset_ready();
    scheduler.mark_ready(2);
    assert!(!scheduler.has_ready_to_run());
}

#[test]
fn ready_set_max_and_status_encoding() {
    let mut r = ReadySet::new();
    assert_eq!(r.max(), None);
    r.insert(0);
    r.insert(63);
    r.insert(17);
    assert_eq!(r.max(), Some(63));
    r.remove(63);
    assert_eq!(r.max(), Some(17));
    assert!(r.contains(0));
    r.clear();
    assert_eq!(r.max(), None);

    assert_eq!(SchedStatus::from_raw(0xFF), SchedStatus::Unlocked);
    assert_eq!(SchedStatus::from_raw(4), SchedStatus::Locked(4));
    assert_eq!(SchedStatus::Locked(9).to_raw(), 9);
    assert_eq!(SchedStatus::Unlocked.to_raw(), 0xFF);
}

#[test]
fn nested_lock_keeps_higher_ceiling() {
    let mut scheduler = QkScheduler::new();
    let outer = scheduler.lock(6);
    let inner = scheduler.lock(3);
    assert_eq!(outer, SchedStatus::Locked(0));
    assert_eq!(inner, SchedStatus::Unlocked);
    scheduler.unlock(inner);
    scheduler.mark_ready(5);
    assert!(!scheduler.has_ready_to_run());
    scheduler.unlock(outer);
    assert!(scheduler.has_ready_to_run());
}

// ── Time events on the preemptive kernel ─────────────────────────────────────

#[test]
fn one_shot_time_event_dispatches() {
    let log = Arc::new(Mutex::new(Vec::new()));
    let ao_id = ActiveObjectId::new(10);
    let ao = new_active_object(ao_id, 4, Recorder::new(ao_id, Arc::clone(&log)));
    let mut kernel = build_kernel(ao);
    kernel.start();

    let mut event = TimeEvent::new(ao_id, TimeEventConfig::new(sig(21)));
    event.arm(1, None);

    let mut wheel = QkTimerWheel::new();
    wheel.register(event);

    wheel.tick(&mut kernel).expect("tick should succeed");

    let entries = log.lock().unwrap();
    assert_eq!(entries.as_slice(), &[(ao_id, sig(21))]);
}

#[test]
fn periodic_time_event_rearms() {
    let log = Arc::new(Mutex::new(Vec::new()));
    let ao_id = ActiveObjectId::new(11);
    let ao = new_active_object(ao_id, 5, Recorder::new(ao_id, Arc::clone(&log)));
    let mut kernel = build_kernel(ao);
    kernel.start();

    let mut event = TimeEvent::new(ao_id, TimeEventConfig::new(sig(22)));
    event.arm(1, Some(2));

    let mut wheel = QkTimerWheel::new();
    wheel.register(event);

    for _ in 0..5 {
        wheel.tick(&mut kernel).expect("tick should succeed");
    }

    let entries = log.lock().unwrap();
    assert!(entries.len() >= 2);
    assert!(entries.iter().all(|(id, s)| *id == ao_id && *s == sig(22)));
    // Fires at ticks 1, 3 and 5.
    assert_eq!(entries.len(), 3);
}

#[test]
fn multi_tick_rate_domains() {
    let log = Arc::new(Mutex::new(Vec::new()));
    let ao_id = ActiveObjectId::new(12);
    let ao = new_active_object(ao_id, 6, Recorder::new(ao_id, Arc::clone(&log)));
    let mut kernel = build_kernel(ao);
    kernel.start();

    let mut event0 = TimeEvent::new(ao_id, TimeEventConfig::new(sig(25)).with_tick_rate(0));
    event0.arm(1, None);

    let mut event1 = TimeEvent::new(ao_id, TimeEventConfig::new(sig(26)).with_tick_rate(1));
    event1.arm(1, None);

    let mut wheel = QkTimerWheel::new();
    wheel.register(event0);
    wheel.register(event1);

    assert!(!wheel.no_active(0));
    assert!(!wheel.no_active(1));
    assert!(wheel.no_active(2));

    wheel.tick_rate(&mut kernel, 0).expect("tick 0 should succeed");
    {
        let entries = log.lock().unwrap();
        assert_eq!(entries.as_slice(), &[(ao_id, sig(25))]);
    }

    assert!(wheel.no_active(0));
    assert!(!wheel.no_active(1));

    wheel.tick_rate(&mut kernel, 1).expect("tick 1 should succeed");
    {
        let entries = log.lock().unwrap();
        assert_eq!(entries.as_slice(), &[(ao_id, sig(25)), (ao_id, sig(26))]);
    }

    assert!(wheel.no_active(1));
}
