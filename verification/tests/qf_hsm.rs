//! Hierarchical state machine scenarios over this topology:
//!
//! ```text
//! top
//! └── s                  (composite)
//!     ├── s1             (composite, initial → s11)
//!     │   └── s11        (leaf)
//!     └── s2             (composite, initial → s21)
//!         └── s21        (leaf)
//! initial pseudo-state → s2 → s21
//! ```

use std::sync::{Arc, Mutex};

use qp_rs::blinky::{Blinky, LedLevel, BLINKY_INITIAL, BLINKY_OFF, BLINKY_ON, BLINKY_TIMEOUT_SIG};
use qp_rs::qf::active::{new_active_object, ActiveObjectId};
use qp_rs::qf::event::{DynEvent, Signal};
use qp_rs::qf::hsm::{
    same_state, HsmRecord, QAsm, QHsm, QHsmResult, StateHandlers, StateId, Q_ENTRY_SIG_VAL, Q_EXIT_SIG_VAL,
    Q_INIT_SIG_VAL, TOP_STATE,
};
use qp_rs::qf::qmsm::{QMActions, QMState, QMsm, QMsmResult};
use qp_rs::qf::kernel::QvKernel;

const A_SIG: u16 = 4;
const B_SIG: u16 = 5;
const C_SIG: u16 = 6;
const D_SIG: u16 = 7;
const E_SIG: u16 = 8;
const F_SIG: u16 = 9;
const G_SIG: u16 = 10;
const H_SIG: u16 = 11;
const I_SIG: u16 = 12;

const S: StateId = 1;
const S1: StateId = 2;
const S11: StateId = 3;
const S2: StateId = 4;
const S21: StateId = 5;
const INITIAL: StateId = 6;

#[derive(Default)]
struct TestSm {
    trace: Vec<&'static str>,
    i_handled: u32,
    foo: bool,
}

impl StateHandlers for TestSm {
    fn handle(&mut self, state: StateId, e: &DynEvent) -> QHsmResult {
        let sig = e.signal().raw();
        match state {
            INITIAL => {
                self.trace.push("initial");
                QHsmResult::Tran(S2)
            }
            S => match sig {
                Q_ENTRY_SIG_VAL => { self.trace.push("s-ENTRY"); QHsmResult::Handled }
                Q_EXIT_SIG_VAL => { self.trace.push("s-EXIT"); QHsmResult::Handled }
                Q_INIT_SIG_VAL => { self.trace.push("s-INIT"); QHsmResult::Tran(S11) }
                E_SIG => { self.trace.push("s-E"); QHsmResult::Tran(S11) }
                I_SIG => { self.i_handled += 1; QHsmResult::Handled }
                _ => QHsmResult::Super(TOP_STATE),
            },
            S1 => match sig {
                Q_ENTRY_SIG_VAL => { self.trace.push("s1-ENTRY"); QHsmResult::Handled }
                Q_EXIT_SIG_VAL => { self.trace.push("s1-EXIT"); QHsmResult::Handled }
                Q_INIT_SIG_VAL => { self.trace.push("s1-INIT"); QHsmResult::Tran(S11) }
                A_SIG => { self.trace.push("s1-A"); QHsmResult::Tran(S1) }
                B_SIG => {
                    if !self.foo {
                        self.trace.push("s1-B");
                        self.foo = true;
                        QHsmResult::Tran(S11)
                    } else {
                        QHsmResult::Ignored
                    }
                }
                C_SIG => { self.trace.push("s1-C"); QHsmResult::Tran(S2) }
                D_SIG => { self.trace.push("s1-D"); QHsmResult::Tran(S) }
                F_SIG => { self.trace.push("s1-F"); QHsmResult::Tran(S2) }
                H_SIG => { self.trace.push("s1-H"); QHsmResult::TranHist(S) }
                _ => QHsmResult::Super(S),
            },
            S11 => match sig {
                Q_ENTRY_SIG_VAL => { self.trace.push("s11-ENTRY"); QHsmResult::Handled }
                Q_EXIT_SIG_VAL => { self.trace.push("s11-EXIT"); QHsmResult::Handled }
                G_SIG => { self.trace.push("s11-G"); QHsmResult::Tran(S1) }
                _ => QHsmResult::Super(S1),
            },
            S2 => match sig {
                Q_ENTRY_SIG_VAL => { self.trace.push("s2-ENTRY"); QHsmResult::Handled }
                Q_EXIT_SIG_VAL => { self.trace.push("s2-EXIT"); QHsmResult::Handled }
                Q_INIT_SIG_VAL => { self.trace.push("s2-INIT"); QHsmResult::Tran(S21) }
                C_SIG => { self.trace.push("s2-C"); QHsmResult::Tran(S1) }
                F_SIG => { self.trace.push("s2-F"); QHsmResult::Tran(S1) }
                _ => QHsmResult::Super(S),
            },
            S21 => match sig {
                Q_ENTRY_SIG_VAL => { self.trace.push("s21-ENTRY"); QHsmResult::Handled }
                Q_EXIT_SIG_VAL => { self.trace.push("s21-EXIT"); QHsmResult::Handled }
                _ => QHsmResult::Super(S2),
            },
            _ => QHsmResult::Ignored,
        }
    }
}

fn make_hsm() -> QHsm<TestSm> {
    QHsm::new(TestSm::default(), INITIAL)
}

fn dispatch(hsm: &mut QHsm<TestSm>, sig: u16) {
    let e = DynEvent::empty_dyn(Signal::from_raw(sig));
    hsm.dispatch(&e);
}

#[test]
fn state_handler_reports_current_leaf() {
    let mut hsm = make_hsm();
    assert!(!same_state(hsm.state_handler(), S21));
    hsm.init().unwrap();
    assert!(same_state(hsm.state_handler(), S21));
    assert!(same_state(hsm.state_handler(), S21));
}

#[test]
fn init_enters_hierarchy_top_down() {
    let mut hsm = make_hsm();
    hsm.init().unwrap();
    assert_eq!(hsm.sm().trace, ["initial", "s-ENTRY", "s2-ENTRY", "s2-INIT", "s21-ENTRY"]);
    dispatch(&mut hsm, C_SIG);
    assert!(hsm.sm().trace.contains(&"s2-C"));
}

#[test]
fn simple_tran_exits_source_enters_target() {
    let mut hsm = make_hsm();
    hsm.init().unwrap();
    let init_len = hsm.sm().trace.len();

    dispatch(&mut hsm, C_SIG);

    let log = &hsm.sm().trace[init_len..];
    assert!(log.contains(&"s21-EXIT"), "should exit s21");
    assert!(log.contains(&"s2-EXIT"), "should exit s2");
    assert!(log.contains(&"s1-ENTRY"), "should enter s1");
    assert!(log.contains(&"s11-ENTRY"), "should enter s11 via s1-INIT");
    assert!(!log.contains(&"s-EXIT"), "LCA s must NOT be exited");
    assert!(!log.contains(&"s-ENTRY"), "LCA s must NOT be re-entered");
}

#[test]
fn self_transition_exits_and_reenters() {
    let mut hsm = make_hsm();
    hsm.init().unwrap();
    dispatch(&mut hsm, C_SIG);
    let init_len = hsm.sm().trace.len();

    dispatch(&mut hsm, A_SIG);

    let log = &hsm.sm().trace[init_len..];
    assert!(log.contains(&"s11-EXIT"), "s11 must exit");
    assert!(log.contains(&"s1-EXIT"), "s1 must exit (self-tran)");
    assert!(log.contains(&"s1-ENTRY"), "s1 must re-enter");
    assert!(log.contains(&"s11-ENTRY"), "s11 must re-enter via nested init");
    assert!(!log.contains(&"s-EXIT"), "s must NOT exit on s1 self-tran");
}

#[test]
fn internal_tran_does_not_change_state() {
    let mut hsm = make_hsm();
    hsm.init().unwrap();

    let before_i_handled = hsm.sm().i_handled;
    dispatch(&mut hsm, I_SIG);
    assert_eq!(hsm.sm().i_handled, before_i_handled + 1, "I_SIG must be handled by s");
    let init_entries_count = hsm
        .sm()
        .trace
        .iter()
        .filter(|s| s.ends_with("-ENTRY") || s.ends_with("-EXIT"))
        .count();

    dispatch(&mut hsm, I_SIG);
    let new_count = hsm
        .sm()
        .trace
        .iter()
        .filter(|s| s.ends_with("-ENTRY") || s.ends_with("-EXIT"))
        .count();
    assert_eq!(new_count, init_entries_count, "No new ENTRY/EXIT on internal tran");
    assert_eq!(hsm.state_handler(), S21);
}

#[test]
fn tran_up_two_levels_exits_chain() {
    let mut hsm = make_hsm();
    hsm.init().unwrap();
    dispatch(&mut hsm, E_SIG);
    let log = &hsm.sm().trace;
    assert!(log.contains(&"s21-EXIT"), "s21 should exit");
    assert!(log.contains(&"s2-EXIT"), "s2 should exit");
    assert!(log.contains(&"s11-ENTRY"), "s11 should be entered");
    assert!(!log.contains(&"s-EXIT"), "s must not exit");
}

#[test]
fn tran_into_composite_runs_nested_init() {
    let mut hsm = make_hsm();
    hsm.init().unwrap();
    dispatch(&mut hsm, C_SIG);
    let init_len = hsm.sm().trace.len();

    dispatch(&mut hsm, D_SIG);
    let log = &hsm.sm().trace[init_len..];
    assert!(log.contains(&"s11-EXIT"), "exit s11");
    assert!(log.contains(&"s1-EXIT"), "exit s1");
    assert!(log.contains(&"s-INIT"), "s-INIT nested init fires");
    assert!(log.contains(&"s11-ENTRY"), "s11 entered via nested init");
}

#[test]
fn tran_hist_restores_last_active_substate() {
    let mut hsm = make_hsm();
    hsm.init().unwrap();
    dispatch(&mut hsm, C_SIG);
    dispatch(&mut hsm, F_SIG);
    dispatch(&mut hsm, C_SIG);

    let init_len = hsm.sm().trace.len();
    dispatch(&mut hsm, H_SIG);
    let log = &hsm.sm().trace[init_len..];
    let enters_s2_branch = log.contains(&"s2-ENTRY") || log.contains(&"s21-ENTRY");
    assert!(enters_s2_branch, "TranHist should restore s2 branch: {:?}", log);
}

#[test]
fn b_sig_guard_transitions_once_then_ignored() {
    let mut hsm = make_hsm();
    hsm.init().unwrap();
    dispatch(&mut hsm, C_SIG);

    assert!(!hsm.sm().foo);
    let pre_len = hsm.sm().trace.len();
    dispatch(&mut hsm, B_SIG);
    assert!(hsm.sm().foo, "foo should be true after first B_SIG");
    assert!(hsm.sm().trace[pre_len..].contains(&"s1-B"), "s1-B should fire");

    let pre_len2 = hsm.sm().trace.len();
    dispatch(&mut hsm, B_SIG);
    assert!(!hsm.sm().trace[pre_len2..].contains(&"s1-B"), "s1-B must NOT fire when foo is true");
}

#[test]
fn unknown_signal_bubbles_to_top_is_ignored() {
    let mut hsm = make_hsm();
    hsm.init().unwrap();
    let pre = hsm.sm().trace.len();
    dispatch(&mut hsm, 99);
    let log = &hsm.sm().trace[pre..];
    let no_entry_exit = !log.iter().any(|s| s.ends_with("-ENTRY") || s.ends_with("-EXIT"));
    assert!(no_entry_exit, "unknown signal must not cause transitions: {:?}", log);
}

struct Recorder {
    trace: Arc<Mutex<Vec<Signal>>>,
}

const REC_INITIAL: StateId = 1;
const REC_ACTIVE: StateId = 2;

impl StateHandlers for Recorder {
    fn handle(&mut self, state: StateId, e: &DynEvent) -> QHsmResult {
        match state {
            REC_INITIAL => QHsmResult::Tran(REC_ACTIVE),
            _ => match e.signal().raw() {
                0..=3 => QHsmResult::Handled,
                sig => {
                    self.trace.lock().unwrap().push(Signal::from_raw(sig));
                    QHsmResult::Handled
                }
            },
        }
    }
}

#[test]
fn hsm_as_active_behavior_via_kernel() {
    let log: Arc<Mutex<Vec<Signal>>> = Arc::new(Mutex::new(Vec::new()));
    let hsm = QHsm::new(Recorder { trace: log.clone() }, REC_INITIAL);
    let ao = new_active_object(ActiveObjectId::new(1), 5, hsm);
    let mut kernel = QvKernel::builder().register(ao).build();
    kernel.start();

    kernel.post(ActiveObjectId::new(1), DynEvent::empty_dyn(Signal::from_raw(42))).unwrap();
    kernel.run_until_idle();

    let recorded = log.lock().unwrap();
    assert_eq!(recorded.len(), 1);
    assert_eq!(recorded[0], Signal::from_raw(42));
}

#[test]
fn g_sig_tran_from_s11_to_s1() {
    let mut hsm = make_hsm();
    hsm.init().unwrap();
    dispatch(&mut hsm, C_SIG);
    let init_len = hsm.sm().trace.len();

    dispatch(&mut hsm, G_SIG);
    let log = &hsm.sm().trace[init_len..];
    assert!(log.contains(&"s11-EXIT"), "s11 should exit");
    assert!(log.contains(&"s1-INIT"), "nested init in s1");
    assert!(log.contains(&"s11-ENTRY"), "s11 re-entered via nested init");
    assert!(!log.contains(&"s1-EXIT"), "s1 must not exit (it's the LCA/target)");
}

#[test]
fn is_in_follows_the_superstate_chain() {
    let mut hsm = make_hsm();
    hsm.init().unwrap();
    assert!(hsm.is_in(S21));
    assert!(hsm.is_in(S2));
    assert!(hsm.is_in(S));
    assert!(hsm.is_in(TOP_STATE));
    assert!(!hsm.is_in(S1));
}

struct Silent;

impl StateHandlers for Silent {
    fn handle(&mut self, _state: StateId, _e: &DynEvent) -> QHsmResult {
        QHsmResult::Handled
    }
}

#[test]
fn init_without_initial_transition_fails() {
    let mut hsm = QHsm::new(Silent, 7);
    assert!(hsm.init().is_err());
    assert_eq!(hsm.state_handler(), TOP_STATE);
    // Through the abstract interface the failure leaves the machine as is.
    QAsm::init(&mut hsm);
    assert_eq!(hsm.state_handler(), TOP_STATE);
}

#[test]
fn traced_init_and_dispatch_record_every_step() {
    let mut hsm = make_hsm();
    hsm.init_traced(true).unwrap();
    assert_eq!(
        hsm.take_records(),
        vec![
            HsmRecord::StateEntry(S),
            HsmRecord::StateEntry(S2),
            HsmRecord::InitTran(S2),
            HsmRecord::StateEntry(S21),
            HsmRecord::StateInit(S2),
        ]
    );

    let c = DynEvent::empty_dyn(Signal::from_raw(C_SIG));
    hsm.dispatch_traced(&c, true);
    let sig = Signal::from_raw(C_SIG);
    assert_eq!(
        hsm.take_records(),
        vec![
            HsmRecord::Dispatch(sig, S21),
            HsmRecord::Tran(sig, S2, S1),
            HsmRecord::StateExit(S21),
            HsmRecord::StateExit(S2),
            HsmRecord::StateEntry(S1),
            HsmRecord::StateEntry(S11),
            HsmRecord::StateInit(S1),
        ]
    );

    let i = DynEvent::empty_dyn(Signal::from_raw(I_SIG));
    hsm.dispatch_traced(&i, true);
    let isig = Signal::from_raw(I_SIG);
    assert_eq!(hsm.take_records(), vec![HsmRecord::Dispatch(isig, S11), HsmRecord::InternTran(isig, S)]);

    // Untraced processing leaves no records.
    dispatch(&mut hsm, 99);
    assert!(hsm.take_records().is_empty());
}

// ── Table-driven machine ─────────────────────────────────────────────────────

// Table: 0 = m (top composite, initial → 2), 1 = m1 (leaf), 2 = m2 (leaf).
#[derive(Default)]
struct Table {
    trace: Vec<(char, usize)>,
}

impl QMActions for Table {
    fn handle(&mut self, state: usize, e: &DynEvent) -> QMsmResult {
        match (state, e.signal().raw()) {
            (2, A_SIG) => QMsmResult::Tran(1),
            (1, A_SIG) => QMsmResult::Tran(2),
            (1, B_SIG) => QMsmResult::TranHist(0),
            (0, I_SIG) => QMsmResult::Handled,
            (0, _) => QMsmResult::Unhandled,
            _ => QMsmResult::Super(0),
        }
    }
    fn entry(&mut self, state: usize) {
        self.trace.push(('n', state));
    }
    fn exit(&mut self, state: usize) {
        self.trace.push(('x', state));
    }
    fn init(&mut self, state: usize) -> Option<usize> {
        if state == 0 { Some(2) } else { None }
    }
}

fn table() -> Vec<QMState> {
    vec![
        QMState { superstate: None, has_entry: true, has_exit: true, has_init: true },
        QMState { superstate: Some(0), has_entry: true, has_exit: true, has_init: false },
        QMState { superstate: Some(0), has_entry: true, has_exit: false, has_init: false },
    ]
}

#[test]
fn qmsm_init_dispatch_and_history() {
    let mut m = QMsm::new(Table::default(), table(), 0);
    m.init();
    assert_eq!(m.state(), 2);
    assert_eq!(m.sm().trace, vec![('n', 0), ('n', 2)]);
    assert!(m.is_in(0) && m.is_in(2) && !m.is_in(1));

    let a = DynEvent::empty_dyn(Signal::from_raw(A_SIG));
    m.dispatch(&a);
    assert_eq!(m.state(), 1);
    // m2 has no exit action; m1 is entered below the common ancestor m.
    assert_eq!(m.sm().trace, vec![('n', 0), ('n', 2), ('n', 1)]);
    assert_eq!(m.path_to_top(1), vec![1, 0]);

    // History of m is m2, the last active child before m1.
    let b = DynEvent::empty_dyn(Signal::from_raw(B_SIG));
    m.dispatch(&b);
    assert_eq!(m.state(), 2);
}

#[test]
fn qmsm_traced_dispatch_records_transition() {
    let mut m = QMsm::new(Table::default(), table(), 0);
    m.init_traced(true);
    assert_eq!(
        m.take_records(),
        vec![HsmRecord::StateEntry(0), HsmRecord::InitTran(0), HsmRecord::StateEntry(2), HsmRecord::StateInit(0)]
    );
    let a = DynEvent::empty_dyn(Signal::from_raw(A_SIG));
    m.dispatch_traced(&a, true);
    let sig = Signal::from_raw(A_SIG);
    assert_eq!(
        m.take_records(),
        vec![
            HsmRecord::Dispatch(sig, 2),
            HsmRecord::Tran(sig, 2, 1),
            HsmRecord::StateExit(2),
            HsmRecord::StateEntry(1),
        ]
    );
    let z = DynEvent::empty_dyn(Signal::from_raw(99));
    m.dispatch_traced(&z, true);
    let zsig = Signal::from_raw(99);
    assert_eq!(m.take_records(), vec![HsmRecord::Dispatch(zsig, 1), HsmRecord::Ignored(zsig, 0)]);
}

// ── Blinky demo machine ──────────────────────────────────────────────────────


#[test]
fn blinky_toggles_led_on_each_timeout() {
    let mut hsm = QHsm::new(Blinky::new(), BLINKY_INITIAL);
    hsm.init().unwrap();
    assert_eq!(hsm.state_handler(), BLINKY_ON);
    assert!(hsm.sm_mut().take_led_requests().is_empty());

    let t = DynEvent::empty_dyn(Signal::from_raw(BLINKY_TIMEOUT_SIG));
    hsm.dispatch(&t);
    assert_eq!(hsm.state_handler(), BLINKY_OFF);
    hsm.dispatch(&t);
    assert_eq!(hsm.state_handler(), BLINKY_ON);
    assert_eq!(hsm.sm_mut().take_led_requests(), vec![LedLevel::Low, LedLevel::High]);

    // Other signals are ignored.
    hsm.dispatch(&DynEvent::empty_dyn(Signal::from_raw(40)));
    assert_eq!(hsm.state_handler(), BLINKY_ON);
    assert!(hsm.sm_mut().take_led_requests().is_empty());
}

#[test]
fn self_transition_runs_actions_in_exact_order() {
    let mut hsm = make_hsm();
    hsm.init().unwrap();
    dispatch(&mut hsm, C_SIG);
    let n = hsm.sm().trace.len();
    hsm.dispatch_traced(&DynEvent::empty_dyn(Signal::from_raw(A_SIG)), false);
    assert_eq!(
        hsm.sm().trace[n..].to_vec(),
        vec!["s1-A", "s11-EXIT", "s1-EXIT", "s1-ENTRY", "s1-INIT", "s11-ENTRY"]
    );
    assert!(same_state(hsm.state_handler(), S11));
}

#[test]
fn qmsm_untraced_transition_runs_exit_then_entry() {
    let mut m = QMsm::new(Table::default(), table(), 0);
    m.init();
    let a = DynEvent::empty_dyn(Signal::from_raw(A_SIG));
    m.dispatch(&a);
    assert_eq!(m.state(), 1);
    m.dispatch_traced(&a, false);
    assert_eq!(m.state(), 2);
    assert_eq!(m.sm().trace, vec![('n', 0), ('n', 2), ('n', 1), ('x', 1), ('n', 2)]);
    assert!(m.take_records().is_empty());
}
