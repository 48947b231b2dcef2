use std::sync::{Arc, Mutex};

use qp_rs::qf::active::{new_active_object, ActiveContext, ActiveObject, ActiveObjectId, SignalHandler};
use qp_rs::qf::event::{DynEvent, Signal};
use qp_rs::qf::kernel::{KernelError, PubSubTable, QvKernel};
use qp_rs::qf::time::{TimeEvent, TimeEventConfig, TimerWheel};

#[derive(Clone, Default)]
struct Collector {
    events: Arc<Mutex<Vec<Signal>>>,
}

impl SignalHandler for Collector {
    fn on_start(&mut self, _ctx: &mut ActiveContext) {}

    fn handle_signal(&mut self, signal: Signal, _ctx: &mut ActiveContext) {
        self.events.lock().unwrap().push(signal);
    }
}

struct Counter(Arc<Mutex<usize>>);

impl SignalHandler for Counter {
    fn handle_signal(&mut self, _: Signal, _: &mut ActiveContext) {
        *self.0.lock().unwrap() += 1;
    }
}

fn sig(n: u16) -> Signal {
    Signal::from_raw(n)
}

fn ev(n: u16) -> DynEvent {
    DynEvent::empty_dyn(sig(n))
}

// ── Active objects and the cooperative kernel ────────────────────────────────

#[test]
fn queue_high_watermark_is_sticky() {
    let mut ao = ActiveObject::new(ActiveObjectId::new(9), 1, Collector::default());
    assert_eq!(ao.queue_len(), 0);
    assert_eq!(ao.queue_high_watermark(), 0);

    ao.post(ev(1));
    ao.post(ev(2));
    assert_eq!(ao.queue_len(), 2);
    assert_eq!(ao.queue_high_watermark(), 2);

    assert!(ao.dispatch_one());
    assert_eq!(ao.queue_len(), 1);
    assert_eq!(ao.queue_high_watermark(), 2);
}

#[test]
fn kernel_delivers_events() {
    let collector = Collector::default();
    let probe = collector.clone();

    let ao = new_active_object(ActiveObjectId::new(1), 1, collector);
    let mut kernel = QvKernel::builder().register(ao).build();
    kernel.start();

    kernel.post(ActiveObjectId::new(1), ev(0x42)).unwrap();
    kernel.run_until_idle();

    let events = probe.events.lock().unwrap();
    assert_eq!(events.len(), 1);
    assert_eq!(events[0], sig(0x42));
}

struct MockBehavior {
    active: Arc<Mutex<usize>>,
    max_concurrent: Arc<Mutex<usize>>,
}

impl SignalHandler for MockBehavior {
    fn handle_signal(&mut self, _signal: Signal, _ctx: &mut ActiveContext) {
        {
            let mut active = self.active.lock().unwrap();
            *active += 1;
            let mut max = self.max_concurrent.lock().unwrap();
            if *active > *max {
                *max = *active;
            }
        }
        *self.active.lock().unwrap() -= 1;
    }
}

#[test]
fn test_cooperative_dispatch() {
    let active = Arc::new(Mutex::new(0));
    let max_concurrent = Arc::new(Mutex::new(0));
    let ao_id = ActiveObjectId::new(10);
    let ao = new_active_object(
        ao_id,
        5,
        MockBehavior { active: Arc::clone(&active), max_concurrent: Arc::clone(&max_concurrent) },
    );

    let mut kernel = QvKernel::builder().register(ao).build();
    kernel.start();

    kernel.post(ao_id, ev(42)).unwrap();
    assert!(kernel.has_pending_work());
    assert!(kernel.dispatch_once());
    assert!(!kernel.has_pending_work());

    assert_eq!(*max_concurrent.lock().unwrap(), 1);
}

#[test]
fn post_to_unknown_object_is_not_found() {
    let ao = new_active_object(ActiveObjectId::new(1), 1, Collector::default());
    let mut kernel = QvKernel::builder().register(ao).build();
    kernel.start();
    assert_eq!(kernel.post(ActiveObjectId::new(7), ev(1)), Err(KernelError::NotFound(ActiveObjectId::new(7))));
    assert!(!kernel.has_pending_work());
    assert!(!kernel.dispatch_once());
}

#[test]
fn dispatch_serves_highest_priority_first() {
    let low = Collector::default();
    let high = Collector::default();
    let low_probe = low.clone();
    let high_probe = high.clone();
    let mut kernel = QvKernel::builder()
        .register(new_active_object(ActiveObjectId::new(1), 1, low))
        .register(new_active_object(ActiveObjectId::new(2), 4, high))
        .build();
    kernel.start();

    kernel.post(ActiveObjectId::new(1), ev(10)).unwrap();
    kernel.post(ActiveObjectId::new(2), ev(20)).unwrap();
    assert!(kernel.dispatch_once());
    assert_eq!(high_probe.events.lock().unwrap().as_slice(), &[sig(20)]);
    assert!(low_probe.events.lock().unwrap().is_empty());
    assert_eq!(kernel.run_until_idle(), 1);
    assert_eq!(low_probe.events.lock().unwrap().as_slice(), &[sig(10)]);
}

// ── Publish–subscribe ────────────────────────────────────────────────────────

#[test]
fn pubsub_delivers_only_to_subscribers() {
    let coll1 = Collector::default();
    let probe1 = coll1.clone();
    let ao1 = new_active_object(ActiveObjectId::new(1), 1, coll1);

    let coll2 = Collector::default();
    let probe2 = coll2.clone();
    let ao2 = new_active_object(ActiveObjectId::new(2), 2, coll2);

    let mut kernel = QvKernel::builder().ps_init(100).register(ao1).register(ao2).build();
    kernel.start();

    kernel.subscribe(sig(10), 1);
    kernel.subscribe(sig(20), 2);

    kernel.publish(sig(10), ev(10));
    kernel.run_until_idle();
    assert_eq!(probe1.events.lock().unwrap().as_slice(), &[sig(10)]);
    assert!(probe2.events.lock().unwrap().is_empty());

    kernel.publish(sig(20), ev(20));
    kernel.run_until_idle();
    assert_eq!(probe1.events.lock().unwrap().as_slice(), &[sig(10)]);
    assert_eq!(probe2.events.lock().unwrap().as_slice(), &[sig(20)]);

    kernel.unsubscribe(sig(10), 1);
    kernel.publish(sig(10), ev(10));
    kernel.run_until_idle();
    assert_eq!(probe1.events.lock().unwrap().as_slice(), &[sig(10)]);
}

#[test]
fn pubsub_unsubscribe_all() {
    let coll = Collector::default();
    let probe = coll.clone();
    let ao = new_active_object(ActiveObjectId::new(1), 1, coll);

    let mut kernel = QvKernel::builder().ps_init(100).register(ao).build();
    kernel.start();

    kernel.subscribe(sig(10), 1);
    kernel.subscribe(sig(20), 1);

    kernel.publish(sig(10), ev(10));
    kernel.publish(sig(20), ev(20));
    kernel.run_until_idle();
    assert_eq!(probe.events.lock().unwrap().as_slice(), &[sig(10), sig(20)]);

    kernel.unsubscribe_all(1);

    kernel.publish(sig(10), ev(10));
    kernel.publish(sig(20), ev(20));
    kernel.run_until_idle();
    assert_eq!(probe.events.lock().unwrap().as_slice(), &[sig(10), sig(20)]);
}

#[test]
fn fallback_broadcast_when_no_ps_init() {
    let coll1 = Collector::default();
    let probe1 = coll1.clone();
    let ao1 = new_active_object(ActiveObjectId::new(1), 1, coll1);

    let coll2 = Collector::default();
    let probe2 = coll2.clone();
    let ao2 = new_active_object(ActiveObjectId::new(2), 2, coll2);

    let mut kernel = QvKernel::builder().register(ao1).register(ao2).build();
    kernel.start();

    kernel.publish(sig(10), ev(10));
    kernel.run_until_idle();

    assert_eq!(probe1.events.lock().unwrap().as_slice(), &[sig(10)]);
    assert_eq!(probe2.events.lock().unwrap().as_slice(), &[sig(10)]);
}

#[test]
fn pubsub_table_tracks_priority_bits() {
    let mut t = PubSubTable::new(8);
    t.subscribe(sig(3), 1);
    t.subscribe(sig(3), 5);
    assert_eq!(t.subscribers(sig(3)), (1 << 1) | (1 << 5));
    t.unsubscribe(sig(3), 1);
    assert_eq!(t.subscribers(sig(3)), 1 << 5);
    t.subscribe(sig(2), 5);
    t.unsubscribe_all(5);
    assert_eq!(t.subscribers(sig(3)), 0);
    assert_eq!(t.subscribers(sig(2)), 0);
}

// ── Time events ──────────────────────────────────────────────────────────────

#[test]
fn time_event_fires_after_tick() {
    let collector = Collector::default();
    let probe = collector.clone();
    let ao = new_active_object(ActiveObjectId::new(1), 1, collector);
    let mut kernel = QvKernel::builder().register(ao).build();
    kernel.start();

    let mut wheel = TimerWheel::new();
    let mut time_evt = TimeEvent::new(ActiveObjectId::new(1), TimeEventConfig::new(sig(0x10)));
    time_evt.arm(1, None);
    wheel.register(time_evt);

    wheel.tick(&mut kernel).unwrap();
    kernel.run_until_idle();

    let events = probe.events.lock().unwrap();
    assert_eq!(events.len(), 1);
    assert_eq!(events[0], sig(0x10));
}

#[test]
fn periodic_time_event_reloads_interval() {
    let collector = Collector::default();
    let probe = collector.clone();
    let mut kernel = QvKernel::builder()
        .register(new_active_object(ActiveObjectId::new(1), 1, collector))
        .build();
    kernel.start();

    let mut wheel = TimerWheel::new();
    let i = wheel.register(TimeEvent::new(ActiveObjectId::new(1), TimeEventConfig::new(sig(0x11))));
    wheel.timer_mut(i).arm(2, Some(3));
    for _ in 0..8 {
        wheel.tick(&mut kernel).unwrap();
    }
    kernel.run_until_idle();
    // Fires at ticks 2, 5 and 8.
    assert_eq!(probe.events.lock().unwrap().len(), 3);
    assert!(wheel.timer(i).is_armed());
}

#[test]
fn time_event_for_unknown_target_reports_not_found() {
    let mut kernel = QvKernel::builder()
        .register(new_active_object(ActiveObjectId::new(1), 1, Collector::default()))
        .build();
    kernel.start();
    let mut wheel = TimerWheel::new();
    let i = wheel.register(TimeEvent::new(ActiveObjectId::new(5), TimeEventConfig::new(sig(0x12))));
    wheel.timer_mut(i).arm(1, None);
    assert!(wheel.tick(&mut kernel).is_err());
}

// ── Run / stop lifecycle, ISR-side entry points ──────────────────────────────

#[test]
fn kernel_run_processes_events_and_stop_exits_loop() {
    let count = Arc::new(Mutex::new(0usize));
    let ao_id = ActiveObjectId::new(1);
    let ao = new_active_object(ao_id, 1, Counter(count.clone()));
    let mut kernel = QvKernel::builder().register(ao).build();

    kernel.post(ao_id, ev(1)).unwrap();
    kernel.post(ao_id, ev(2)).unwrap();
    kernel.post(ao_id, ev(3)).unwrap();

    // The run loop: start, then tick and drain until a stop is requested;
    // the tick function here requests the stop at once.
    kernel.start();
    kernel.clear_stop();
    loop {
        if kernel.stop_requested() {
            break;
        }
        kernel.stop();
        kernel.run_until_idle();
    }

    assert_eq!(*count.lock().unwrap(), 3, "all events processed");
}

#[test]
fn has_pending_work_reflects_queue_state() {
    let ao_id = ActiveObjectId::new(2);
    let ao = new_active_object(ao_id, 1, Counter(Arc::new(Mutex::new(0))));
    let mut kernel = QvKernel::builder().register(ao).build();
    kernel.start();

    assert!(!kernel.has_pending_work());
    kernel.post(ao_id, ev(1)).unwrap();
    assert!(kernel.has_pending_work());
    kernel.run_until_idle();
    assert!(!kernel.has_pending_work());
}

#[test]
fn post_from_isr_delivers_event() {
    let count = Arc::new(Mutex::new(0usize));
    let ao_id = ActiveObjectId::new(3);
    let ao = new_active_object(ao_id, 1, Counter(count.clone()));
    let mut kernel = QvKernel::builder().register(ao).build();
    kernel.start();

    kernel.post_from_isr(ao_id, ev(5)).unwrap();

    kernel.run_until_idle();
    assert_eq!(*count.lock().unwrap(), 1);
}

#[test]
fn publish_from_isr_broadcasts_to_all_aos() {
    let count_a = Arc::new(Mutex::new(0usize));
    let count_b = Arc::new(Mutex::new(0usize));
    let ao_a = new_active_object(ActiveObjectId::new(4), 1, Counter(count_a.clone()));
    let ao_b = new_active_object(ActiveObjectId::new(5), 2, Counter(count_b.clone()));
    let mut kernel = QvKernel::builder().register(ao_a).register(ao_b).build();
    kernel.start();

    kernel.publish_from_isr(sig(7), ev(7));

    kernel.run_until_idle();
    assert_eq!(*count_a.lock().unwrap(), 1);
    assert_eq!(*count_b.lock().unwrap(), 1);
}

#[test]
fn rearm_updates_counter_without_disarm_cycle() {
    let ao_id = ActiveObjectId::new(6);
    let ao = new_active_object(ao_id, 1, Counter(Arc::new(Mutex::new(0))));
    let mut kernel = QvKernel::builder().register(ao).build();
    kernel.start();

    let mut te = TimeEvent::new(ao_id, TimeEventConfig::new(sig(0x20)));
    te.arm(5, None);
    assert!(te.is_armed());

    let was_armed = te.rearm(3);
    assert!(was_armed);
    assert!(te.is_armed());

    te.disarm();
    let was_armed2 = te.rearm(10);
    assert!(!was_armed2);
    assert!(te.is_armed());
}

#[test]
fn was_disarmed_set_on_explicit_disarm() {
    let ao_id = ActiveObjectId::new(7);
    let ao = new_active_object(ao_id, 1, Counter(Arc::new(Mutex::new(0))));
    let mut kernel = QvKernel::builder().register(ao).build();
    kernel.start();

    let mut te = TimeEvent::new(ao_id, TimeEventConfig::new(sig(0x21)));
    te.arm(5, None);
    assert!(!te.was_disarmed(), "not yet disarmed");
    te.disarm();
    assert!(te.was_disarmed(), "flag set after disarm");
    assert!(!te.was_disarmed(), "flag cleared after read");
}

#[test]
fn was_disarmed_set_when_oneshot_fires() {
    let count = Arc::new(Mutex::new(0usize));
    let ao_id = ActiveObjectId::new(8);
    let ao = new_active_object(ao_id, 1, Counter(count.clone()));
    let mut kernel = QvKernel::builder().register(ao).build();
    kernel.start();

    let mut wheel = TimerWheel::new();
    let i = wheel.register(TimeEvent::new(ao_id, TimeEventConfig::new(sig(0x22))));

    wheel.timer_mut(i).arm(1, None);
    wheel.tick(&mut kernel).unwrap();
    kernel.run_until_idle();

    assert_eq!(*count.lock().unwrap(), 1, "event fired");
    assert!(wheel.timer_mut(i).was_disarmed(), "was_disarmed flag set after auto-disarm");
    assert!(!wheel.timer_mut(i).was_disarmed(), "flag cleared after read");
}

#[test]
fn tick_from_isr_advances_timer_wheel() {
    let count = Arc::new(Mutex::new(0usize));
    let ao_id = ActiveObjectId::new(9);
    let ao = new_active_object(ao_id, 1, Counter(count.clone()));
    let mut kernel = QvKernel::builder().register(ao).build();
    kernel.start();

    let mut wheel = TimerWheel::new();
    let i = wheel.register(TimeEvent::new(ao_id, TimeEventConfig::new(sig(0x30))));

    wheel.timer_mut(i).arm(1, None);
    wheel.tick_from_isr(&mut kernel).unwrap();

    kernel.run_until_idle();
    assert_eq!(*count.lock().unwrap(), 1, "tick_from_isr delivered event");
}
