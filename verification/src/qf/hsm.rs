//! Hierarchical state machines (QHsm).
//!
//! States are identified by [`StateId`]s; [`TOP_STATE`] is the implicit
//! top-most superstate that ignores every event. The application implements
//! [`StateHandlers`]: given a state and an event, a handler answers with a
//! [`QHsmResult`]. The framework learns the hierarchy by asking a state for
//! its superstate with the empty signal, runs exit actions up to the least
//! common ancestor (LCA) of source and target, entry actions down to the
//! target, nested initial transitions, and keeps shallow history.
//!
//! The transition geometry is computed by pure functions over ancestry paths
//! ([`find_lca`], [`plan_transition`]), whose contracts are exact.

use vstd::prelude::*;
use crate::qf::event::{DynEvent, Event, Signal};
use crate::qf::dis::Dup;

verus! {

/// Identifier of a state.
pub type StateId = usize;

/// The top-most superstate; it ignores every event.
pub const TOP_STATE: usize = 0;

/// Maximum nesting depth of the hierarchy below the top state.
pub const MAX_NEST_DEPTH: usize = 6;

/// Probe signal: asks a state for its superstate.
pub const Q_EMPTY_SIG_VAL: u16 = 0;
/// Entry action signal.
pub const Q_ENTRY_SIG_VAL: u16 = 1;
/// Exit action signal.
pub const Q_EXIT_SIG_VAL: u16 = 2;
/// Initial transition signal.
pub const Q_INIT_SIG_VAL: u16 = 3;
/// First signal value for application signals.
pub const Q_USER_SIG_VAL: u16 = 4;

/// Answer of a state handler.
#[derive(Debug, Clone, Copy, PartialEq, Eq, Structural)]
pub enum QHsmResult {
    /// Handled; no transition.
    Handled,
    /// Not handled here; delegate to the given superstate.
    Super(StateId),
    /// Transition to the given state.
    Tran(StateId),
    /// Transition to the shallow history of the given composite state.
    TranHist(StateId),
    /// Recognised and deliberately ignored.
    Ignored,
    /// A guard prevented handling; treated as ignored.
    Unhandled,
}

/// Whether two state identifiers denote the same state.
pub fn same_state(a: StateId, b: StateId) -> (r: bool)
    ensures
        r == (a == b),
{
    a == b
}

/// Identity comparison of state representations.
pub trait SameState: Sized {
    /// Whether `self` and `other` denote the same state.
    fn same_state(self, other: Self) -> bool;
}

impl SameState for usize {
    fn same_state(self, other: usize) -> (r: bool)
        ensures
            r == (self == other),
    {
        self == other
    }
}

/// Abstract state machine interface.
pub trait QAsm {
    /// Executes the initial transition.
    fn init(&mut self);
    /// Dispatches one event.
    fn dispatch(&mut self, event: &DynEvent);
}

/// State handlers of an application state machine.
pub trait StateHandlers {
    /// Handles `event` in `state`. With the empty signal the answer must be
    /// `Super(parent)`; entry and exit actions run on the entry/exit signals;
    /// with the initial signal a composite state answers `Tran(child)`.
    fn handle(&mut self, state: StateId, event: &DynEvent) -> QHsmResult;
}

/// Position of the first occurrence of `x` in `path`, or its length.
pub open spec fn pos_of(path: Seq<usize>, x: usize) -> nat
    decreases path.len(),
{
    if path.len() == 0 {
        0
    } else if path[0] == x {
        0
    } else {
        1 + pos_of(path.drop_first(), x)
    }
}

/// The first element of `p1` that also occurs in `p2`, or the top state.
pub open spec fn lca_of(p1: Seq<usize>, p2: Seq<usize>) -> usize
    decreases p1.len(),
{
    if p1.len() == 0 {
        TOP_STATE
    } else if p2.contains(p1[0]) {
        p1[0]
    } else {
        lca_of(p1.drop_first(), p2)
    }
}

/// `pos_of` is the first index holding `x`, or the length when absent.
pub proof fn lemma_pos_of(path: Seq<usize>, x: usize)
    ensures
        pos_of(path, x) <= path.len(),
        pos_of(path, x) < path.len() ==> path[pos_of(path, x) as int] == x,
        forall|j: int| 0 <= j < pos_of(path, x) ==> path[j] != x,
        pos_of(path, x) == path.len() <==> !path.contains(x),
    decreases path.len(),
{
    if path.len() > 0 {
        lemma_pos_of(path.drop_first(), x);
        if path[0] != x {
            assert forall|j: int| 0 <= j < pos_of(path, x) implies path[j] != x by {
                if j > 0 {
                    assert(path[j] == path.drop_first()[j - 1]);
                }
            }
            if !path.drop_first().contains(x) {
                assert forall|j: int| 0 <= j < path.len() implies path[j] != x by {
                    if j > 0 {
                        assert(path[j] == path.drop_first()[j - 1]);
                    }
                }
            } else {
                let k = choose|k: int| 0 <= k < path.drop_first().len() && path.drop_first()[k] == x;
                assert(path[k + 1] == x);
            }
        } else {
            assert(path[0] == x);
        }
    }
}

/// `lca_of` is the first element of `p1` occurring in `p2`.
pub proof fn lemma_lca_of(p1: Seq<usize>, p2: Seq<usize>)
    ensures
        (exists|i: int| 0 <= i < p1.len() && p2.contains(p1[i])) ==> {
            let k = pos_of(p1, lca_of(p1, p2));
            &&& k < p1.len()
            &&& p1[k as int] == lca_of(p1, p2)
            &&& p2.contains(lca_of(p1, p2))
            &&& forall|j: int| 0 <= j < k ==> !p2.contains(#[trigger] p1[j])
        },
        !(exists|i: int| 0 <= i < p1.len() && p2.contains(p1[i])) ==> lca_of(p1, p2) == TOP_STATE,
    decreases p1.len(),
{
    if p1.len() > 0 {
        let t = p1.drop_first();
        lemma_lca_of(t, p2);
        if !p2.contains(p1[0]) {
            if exists|i: int| 0 <= i < p1.len() && p2.contains(p1[i]) {
                let i = choose|i: int| 0 <= i < p1.len() && p2.contains(p1[i]);
                assert(t[i - 1] == p1[i]);
                let l = lca_of(t, p2);
                let kt = pos_of(t, l);
                lemma_pos_of(t, l);
                lemma_pos_of(p1, l);
                assert(p1[0] != l);
                assert forall|j: int| 0 <= j < pos_of(p1, l) implies !p2.contains(#[trigger] p1[j]) by {
                    if j > 0 {
                        assert(p1[j] == t[j - 1]);
                    }
                }
            } else {
                assert forall|i: int| 0 <= i < t.len() implies !p2.contains(#[trigger] t[i]) by {
                    assert(t[i] == p1[i + 1]);
                }
            }
        }
    }
}

/// Index of the first occurrence of `x` in `path`, or its length.
pub fn position_of(path: &Vec<usize>, x: usize) -> (r: usize)
    ensures
        r == pos_of(path@, x),
{
    let mut i: usize = 0;
    while i < path.len()
        invariant
            i <= path@.len(),
            forall|j: int| 0 <= j < i ==> path@[j] != x,
        decreases path@.len() - i,
    {
        if path[i] == x {
            proof { lemma_pos_of(path@, x); lemma_pos_unique(path@, x, i as int); }
            return i;
        }
        i += 1;
    }
    proof { lemma_pos_of(path@, x); lemma_pos_unique(path@, x, path@.len() as int); }
    i
}

/// The first index holding `x` (or the length when none does) is `pos_of`.
proof fn lemma_pos_unique(path: Seq<usize>, x: usize, i: int)
    requires
        0 <= i <= path.len(),
        i < path.len() ==> path[i] == x,
        forall|j: int| 0 <= j < i ==> path[j] != x,
    ensures
        pos_of(path, x) == i,
{
    lemma_pos_of(path, x);
    let k = pos_of(path, x) as int;
    if k < i {
        assert(path[k] == x);
    } else if i < k {
        assert(path[i] == x);
    }
}

/// The least common ancestor of two ancestry paths: the first state of
/// `path1` that occurs in `path2`, or the top state when none does.
pub fn find_lca(path1: &Vec<usize>, path2: &Vec<usize>) -> (r: usize)
    ensures
        r == lca_of(path1@, path2@),
{
    let mut i: usize = 0;
    assert(path1@.skip(0) =~= path1@);
    while i < path1.len()
        invariant
            i <= path1@.len(),
            lca_of(path1@, path2@) == lca_of(path1@.skip(i as int), path2@),
        decreases path1@.len() - i,
    {
        let a = path1[i];
        let k = position_of(path2, a);
        proof { lemma_pos_of(path2@, a); }
        proof {
            assert(path1@.skip(i as int).drop_first() =~= path1@.skip(i as int + 1));
        }
        if k < path2.len() {
            return a;
        }
        i += 1;
    }
    proof {
        assert(path1@.skip(i as int).len() == 0);
    }
    TOP_STATE
}

/// The states exited by a transition: the current ancestry path up to (not
/// including) the LCA.
pub open spec fn exits_of(current_path: Seq<usize>, lca: usize) -> Seq<usize> {
    current_path.take(pos_of(current_path, lca) as int)
}

/// The states entered by a transition, top-down: the target ancestry path up
/// to (not including) the LCA, reversed.
pub open spec fn entries_of(target_path: Seq<usize>, lca: usize) -> Seq<usize> {
    target_path.take(pos_of(target_path, lca) as int).reverse()
}

/// The exit and entry sequences of a transition.
pub struct TranPlan {
    /// States to exit, innermost first.
    pub exits: Vec<usize>,
    /// States to enter, outermost first.
    pub entries: Vec<usize>,
    /// The least common ancestor.
    pub lca: usize,
}

/// Computes the exits and entries of a transition from the ancestry paths of
/// the current state, of the LCA source (the source, or its superstate on a
/// self-transition) and of the target.
pub fn plan_transition(current_path: &Vec<usize>, source_path: &Vec<usize>, target_path: &Vec<usize>) -> (p: TranPlan)
    ensures
        p.lca == lca_of(source_path@, target_path@),
        p.exits@ == exits_of(current_path@, p.lca),
        p.entries@ == entries_of(target_path@, p.lca),
{
    let lca = find_lca(source_path, target_path);
    let ne = position_of(current_path, lca);
    proof { lemma_pos_of(current_path@, lca); }
    let mut exits: Vec<usize> = Vec::new();
    let mut i: usize = 0;
    while i < ne
        invariant
            ne == pos_of(current_path@, lca),
            ne <= current_path@.len(),
            i <= ne,
            exits@ == current_path@.take(i as int),
        decreases ne - i,
    {
        proof { lemma_pos_of(current_path@, lca); }
        exits.push(current_path[i]);
        i += 1;
        proof { assert(exits@ =~= current_path@.take(i as int)); }
    }
    proof { lemma_pos_of(target_path@, lca); lemma_pos_of(current_path@, lca); }
    let nt = position_of(target_path, lca);
    let mut entries: Vec<usize> = Vec::new();
    let mut j: usize = nt;
    while j > 0
        invariant
            nt == pos_of(target_path@, lca),
            nt <= target_path@.len(),
            j <= nt,
            entries@ == target_path@.subrange(j as int, nt as int).reverse(),
        decreases j,
    {
        j -= 1;
        entries.push(target_path[j]);
        proof {
            assert(entries@ =~= target_path@.subrange(j as int, nt as int).reverse());
        }
    }
    proof {
        assert(target_path@.subrange(0, nt as int) =~= target_path@.take(nt as int));
        assert(exits@ =~= current_path@.take(ne as int));
    }
    TranPlan { exits, entries, lca }
}

/// Law: a transition never exits nor enters the least common ancestor of
/// its source and target, and enters the target last.
pub proof fn lemma_transition_shape(current_path: Seq<usize>, source_path: Seq<usize>, target_path: Seq<usize>)
    requires
        target_path.len() > 0,
    ensures
        ({
            let lca = lca_of(source_path, target_path);
            &&& !exits_of(current_path, lca).contains(lca)
            &&& !entries_of(target_path, lca).contains(lca)
            &&& target_path[0] != lca ==> entries_of(target_path, lca).len() > 0
                && entries_of(target_path, lca).last() == target_path[0]
        }),
{
    let lca = lca_of(source_path, target_path);
    lemma_pos_of(current_path, lca);
    lemma_pos_of(target_path, lca);
    let ex = exits_of(current_path, lca);
    let en = entries_of(target_path, lca);
    let t = target_path.take(pos_of(target_path, lca) as int);
    if ex.contains(lca) {
        let k = choose|k: int| 0 <= k < ex.len() && ex[k] == lca;
        assert(current_path[k] == lca);
    }
    if en.contains(lca) {
        let k = choose|k: int| 0 <= k < en.len() && en[k] == lca;
        assert(en[k] == t[t.len() - 1 - k]);
        assert(target_path[t.len() - 1 - k] == lca);
    }
    if target_path[0] != lca {
        assert(pos_of(target_path, lca) > 0);
        assert(en.last() == t[0]);
    }
}

/// Law: a self-transition of the current state exits it and re-enters it,
/// and nothing else (its ancestry must name each state once).
pub proof fn lemma_self_transition(path: Seq<usize>)
    requires
        path.len() >= 2,
        path.no_duplicates(),
    ensures
        lca_of(path.drop_first(), path) == path[1],
        exits_of(path, path[1]) == seq![path[0]],
        entries_of(path, path[1]) == seq![path[0]],
{
    assert(path.contains(path.drop_first()[0]));
    assert(path[0] != path[1]);
    assert(pos_of(path.drop_first(), path[1]) == 0);
    assert(pos_of(path, path[1]) == 1);
    assert(path.take(1) =~= seq![path[0]]);
    assert(path.take(1).reverse() =~= seq![path[0]]);
}

/// The state a transition to the history of `parent` lands in: the
/// remembered child, or `parent` itself when nothing is remembered.
pub open spec fn history_target(history: Map<usize, usize>, parent: usize) -> usize {
    if history.contains_key(parent) {
        history[parent]
    } else {
        parent
    }
}

/// Shallow-history table: for each composite state, its last active child.
pub struct History {
    entries: Vec<(usize, usize)>,
}

impl View for History {
    type V = Map<usize, usize>;

    closed spec fn view(&self) -> Map<usize, usize> {
        Map::new(
            |k: usize| exists|i: int| 0 <= i < self.entries@.len() && self.entries@[i].0 == k,
            |k: usize| {
                let i = choose|i: int| 0 <= i < self.entries@.len() && self.entries@[i].0 == k;
                self.entries@[i].1
            },
        )
    }
}

impl History {
    /// Keys are unique.
    pub closed spec fn wf(&self) -> bool {
        forall|i: int, j: int|
            0 <= i < j < self.entries@.len() ==> self.entries@[i].0 != self.entries@[j].0
    }

    /// Checks that keys are unique.
    pub fn is_wf(&self) -> (b: bool)
        ensures
            b == self.wf(),
    {
        let n = self.entries.len();
        let mut i: usize = 0;
        while i < n
            invariant
                n == self.entries@.len(),
                i <= n,
                forall|a: int, b: int| 0 <= a < i && a < b < n ==> self.entries@[a].0 != self.entries@[b].0,
            decreases n - i,
        {
            let mut j: usize = i + 1;
            while j < n
                invariant
                    n == self.entries@.len(),
                    i < n,
                    i < j <= n,
                    forall|a: int, b: int| 0 <= a < i && a < b < n ==> self.entries@[a].0 != self.entries@[b].0,
                    forall|b: int| i < b < j ==> self.entries@[i as int].0 != self.entries@[b].0,
                decreases n - j,
            {
                if self.entries[i].0 == self.entries[j].0 {
                    return false;
                }
                j += 1;
            }
            i += 1;
        }
        true
    }

    /// An empty table.
    pub fn new() -> (h: History)
        ensures
            h.wf(),
            h@ == Map::<usize, usize>::empty(),
    {
        let h = History { entries: Vec::new() };
        assert(h@ =~= Map::<usize, usize>::empty());
        h
    }

    /// The remembered child of `parent`, or `parent` when none.
    pub fn target(&self, parent: usize) -> (r: usize)
        requires
            self.wf(),
        ensures
            r == history_target(self@, parent),
    {
        let mut i: usize = 0;
        while i < self.entries.len()
            invariant
                self.wf(),
                i <= self.entries@.len(),
                forall|j: int| 0 <= j < i ==> self.entries@[j].0 != parent,
            decreases self.entries@.len() - i,
        {
            if self.entries[i].0 == parent {
                proof {
                    assert(self@.contains_key(parent));
                    let c = choose|c: int| 0 <= c < self.entries@.len() && self.entries@[c].0 == parent;
                    if c > i {
                        assert(self.entries@[i as int].0 != self.entries@[c].0);
                    }
                    assert(c == i);
                }
                return self.entries[i].1;
            }
            i += 1;
        }
        proof {
            assert(!self@.contains_key(parent));
        }
        parent
    }

    /// Remembers `child` as the last active child of `parent`.
    pub fn record(&mut self, parent: usize, child: usize)
        requires
            old(self).wf(),
        ensures
            final(self).wf(),
            final(self)@ == old(self)@.insert(parent, child),
    {
        let mut i: usize = 0;
        while i < self.entries.len()
            invariant
                self.wf(),
                self@ == old(self)@,
                self.entries@ == old(self).entries@,
                i <= self.entries@.len(),
                forall|j: int| 0 <= j < i ==> self.entries@[j].0 != parent,
            decreases self.entries@.len() - i,
        {
            if self.entries[i].0 == parent {
                let ghost before = self.entries@;
                self.entries.set(i, (parent, child));
                proof {
                    assert forall|k: usize| #![auto] self@.contains_key(k) == old(self)@.insert(parent, child).contains_key(k) by {
                        if k != parent {
                            if old(self)@.contains_key(k) {
                                let c = choose|c: int| 0 <= c < before.len() && before[c].0 == k;
                                assert(self.entries@[c].0 == k);
                            }
                            if self@.contains_key(k) {
                                let c = choose|c: int| 0 <= c < self.entries@.len() && self.entries@[c].0 == k;
                                assert(before[c].0 == k);
                            }
                        } else {
                            assert(self.entries@[i as int].0 == k);
                        }
                    }
                    assert forall|k: usize| #![auto] self@.contains_key(k) implies self@[k] == old(self)@.insert(parent, child)[k] by {
                        let c = choose|c: int| 0 <= c < self.entries@.len() && self.entries@[c].0 == k;
                        if k == parent {
                            assert(c == i);
                        } else {
                            let c0 = choose|c0: int| 0 <= c0 < before.len() && before[c0].0 == k;
                            assert(c == c0);
                        }
                    }
                    assert(self@ =~= old(self)@.insert(parent, child));
                }
                return;
            }
            i += 1;
        }
        let ghost before = self.entries@;
        self.entries.push((parent, child));
        proof {
            assert forall|k: usize| #![auto] self@.contains_key(k) == old(self)@.insert(parent, child).contains_key(k) by {
                if k != parent {
                    if old(self)@.contains_key(k) {
                        let c = choose|c: int| 0 <= c < before.len() && before[c].0 == k;
                        assert(self.entries@[c].0 == k);
                    }
                    if self@.contains_key(k) {
                        let c = choose|c: int| 0 <= c < self.entries@.len() && self.entries@[c].0 == k;
                        assert(before[c].0 == k);
                    }
                } else {
                    assert(self.entries@[before.len() as int].0 == k);
                }
            }
            assert forall|k: usize| #![auto] self@.contains_key(k) implies self@[k] == old(self)@.insert(parent, child)[k] by {
                let c = choose|c: int| 0 <= c < self.entries@.len() && self.entries@[c].0 == k;
                if k == parent {
                    assert(c == before.len());
                } else {
                    let c0 = choose|c0: int| 0 <= c0 < before.len() && before[c0].0 == k;
                    assert(c == c0);
                }
            }
            assert(self@ =~= old(self)@.insert(parent, child));
        }
    }
}

/// Error raised when the initial pseudo-state does not name a target.
#[derive(Debug, Clone, Copy, PartialEq, Eq, Structural)]
pub enum QHsmError {
    /// The initial pseudo-state answered something other than a transition.
    NoInitialTransition,
}

/// A trace record of state-machine processing, for the port to forward to
/// its trace output.
#[derive(Debug, Clone, Copy, PartialEq, Eq, Structural)]
pub enum HsmRecord {
    /// A state's entry action ran.
    StateEntry(StateId),
    /// A state's exit action ran.
    StateExit(StateId),
    /// A nested initial transition left the given state.
    StateInit(StateId),
    /// The top-most initial transition reached the given state.
    InitTran(StateId),
    /// An event with the signal was dispatched in the given state.
    Dispatch(Signal, StateId),
    /// The given state handled the event without a transition.
    InternTran(Signal, StateId),
    /// The event was ignored, the walk having ended at the given state.
    Ignored(Signal, StateId),
    /// A transition from the first state to the second.
    Tran(Signal, StateId, StateId),
    /// A history transition from the first state to the second.
    TranHist(Signal, StateId, StateId),
}

/// `after` keeps `before` as a prefix, and equals it when not tracing.
pub open spec fn extends(after: Seq<HsmRecord>, before: Seq<HsmRecord>, trace: bool) -> bool {
    &&& before.len() <= after.len()
    &&& forall|i: int| 0 <= i < before.len() ==> #[trigger] after[i] == before[i]
    &&& !trace ==> after == before
}

/// `extends` is transitive.
pub proof fn lemma_extends_trans(c: Seq<HsmRecord>, b: Seq<HsmRecord>, a: Seq<HsmRecord>, trace: bool)
    requires
        extends(c, b, trace),
        extends(b, a, trace),
    ensures
        extends(c, a, trace),
{
    assert forall|i: int| 0 <= i < a.len() implies #[trigger] c[i] == a[i] by {
        assert(c[i] == b[i]);
    }
}

/// A hierarchical state machine over the application's handlers.
pub struct QHsm<S: StateHandlers> {
    state: Dup<usize>,
    temp: usize,
    sm: S,
    history: History,
    records: Vec<HsmRecord>,
    asked: Ghost<Seq<(StateId, u16, QHsmResult, DynEvent)>>,
    trail: Ghost<Seq<HsmRecord>>,
}

/// Trace records of exiting `states`, in order.
pub open spec fn exit_records(states: Seq<usize>) -> Seq<HsmRecord> {
    states.map_values(|s: usize| HsmRecord::StateExit(s))
}

/// Trace records of entering `states`, in order.
pub open spec fn entry_records(states: Seq<usize>) -> Seq<HsmRecord> {
    states.map_values(|s: usize| HsmRecord::StateEntry(s))
}

/// Some question of `log` about the superstate of `s` was answered with
/// `sup` (see [`super_of`]).
pub open spec fn answered_super(log: Seq<(StateId, u16, QHsmResult, DynEvent)>, s: StateId, sup: StateId) -> bool {
    exists|k: int| 0 <= k < log.len() && (#[trigger] log[k]).0 == s && log[k].1 == Q_EMPTY_SIG_VAL && super_of(log[k].2) == sup
}

/// `p` is the ancestry path of `s` (from `s` upward, the top state left
/// out, at most [`MAX_NEST_DEPTH`] long) as the answers in `log` gave it:
/// each state's superstate is the next one, and the last state's is the top
/// state unless the path reached the depth bound.
pub open spec fn answered_path(log: Seq<(StateId, u16, QHsmResult, DynEvent)>, s: StateId, p: Seq<usize>) -> bool {
    &&& p.len() <= MAX_NEST_DEPTH
    &&& s == TOP_STATE ==> p.len() == 0
    &&& s != TOP_STATE ==> p.len() > 0 && p[0] == s
    &&& forall|i: int| 0 <= i < p.len() ==> p[i] != TOP_STATE
    &&& forall|i: int| 0 <= i < p.len() - 1 ==> #[trigger] answered_super(log, p[i], p[i + 1])
    &&& 0 < p.len() < MAX_NEST_DEPTH ==> answered_super(log, p.last(), TOP_STATE)
}

/// Answers stay answered as the log grows.
pub proof fn lemma_answered_grow(log1: Seq<(StateId, u16, QHsmResult, DynEvent)>, log2: Seq<(StateId, u16, QHsmResult, DynEvent)>, s: StateId, p: Seq<usize>)
    requires
        log1.is_prefix_of(log2),
        answered_path(log1, s, p),
    ensures
        answered_path(log2, s, p),
{
    assert forall|x: StateId, y: StateId| answered_super(log1, x, y) implies answered_super(log2, x, y) by {
        let k = choose|k: int| 0 <= k < log1.len() && (#[trigger] log1[k]).0 == x && log1[k].1 == Q_EMPTY_SIG_VAL && super_of(log1[k].2) == y;
        assert(log2[k] == log1[k]);
    }
    if 0 < p.len() < MAX_NEST_DEPTH {
        assert(answered_super(log1, p.last(), TOP_STATE));
    }
    assert forall|i: int| 0 <= i < p.len() - 1 implies #[trigger] answered_super(log2, p[i], p[i + 1]) by {
        assert(answered_super(log1, p[i], p[i + 1]));
    }
}

/// The parent of `path[i]` along the ancestry path `path`: the next state
/// on it, or the top state past its end.
pub open spec fn path_parent(path: Seq<usize>, i: int) -> usize {
    if i + 1 < path.len() {
        path[i + 1]
    } else {
        TOP_STATE
    }
}

/// The shallow history once the first `n` states of the ancestry path
/// `path` were exited, innermost first, starting from `h`: each exited state
/// became the remembered child of its parent, unless that is the top state.
pub open spec fn exit_history(h: Map<usize, usize>, path: Seq<usize>, n: nat) -> Map<usize, usize>
    decreases n,
{
    if n == 0 {
        h
    } else {
        let h1 = exit_history(h, path, (n - 1) as nat);
        let p = path_parent(path, n - 1);
        if p != TOP_STATE {
            h1.insert(p, path[n - 1])
        } else {
            h1
        }
    }
}

/// The state a run of nested initial transitions from `c` reached after its
/// first `i` steps; each step is the target an initial transition named,
/// with that target's ancestry path.
pub open spec fn init_at(c: usize, steps: Seq<(usize, Seq<usize>)>, i: int) -> usize {
    if i <= 0 {
        c
    } else {
        steps[i - 1].0
    }
}

/// The records of a run of nested initial transitions from `c`: for each
/// step, the states of the target's ancestry path below the state the step
/// started from, entered outermost first, then that state's
/// initial-transition record.
pub open spec fn init_records(c: usize, steps: Seq<(usize, Seq<usize>)>) -> Seq<HsmRecord>
    decreases steps.len(),
{
    if steps.len() == 0 {
        Seq::empty()
    } else {
        let from = init_at(c, steps, steps.len() - 1);
        init_records(c, steps.drop_last()) + entry_records(entries_of(steps.last().1, from)).push(HsmRecord::StateInit(from))
    }
}

/// Law: the states a nested initial transition from `c` to `t` enters are
/// a chain of superstate links the states reported, from just below `c`
/// down to `t`, outermost first; `c` itself is not entered again. (Here
/// `p` is the ancestry path of `t` as the answers in `log` gave it, and `c`
/// lies on it.)
pub proof fn lemma_nested_entries(log: Seq<(StateId, u16, QHsmResult, DynEvent)>, t: StateId, p: Seq<usize>, c: usize)
    requires
        answered_path(log, t, p),
        p.contains(c),
        c != t,
    ensures
        ({
            let e = entries_of(p, c);
            &&& e.len() > 0
            &&& e.last() == t
            &&& answered_super(log, e[0], c)
            &&& forall|i: int| 0 <= i < e.len() - 1 ==> #[trigger] answered_super(log, e[i + 1], e[i])
            &&& !e.contains(c)
        }),
{
    lemma_pos_of(p, c);
    let k = pos_of(p, c) as int;
    let e = entries_of(p, c);
    assert(k > 0) by {
        if k == 0 {
            assert(p[0] == t);
        }
    }
    assert(e.len() == k);
    assert forall|i: int| 0 <= i < k implies e[i] == p[k - 1 - i] by {}
    assert(e.last() == p[0]);
    let km = k - 1;
    assert(k < p.len());
    assert(answered_super(log, p[km], p[km + 1]));
    assert(p[km + 1] == c);
    assert forall|i: int| 0 <= i < e.len() - 1 implies #[trigger] answered_super(log, e[i + 1], e[i]) by {
        assert(e[i + 1] == p[k - 2 - i]);
        assert(e[i] == p[k - 1 - i]);
        assert(answered_super(log, p[k - 2 - i], p[k - 2 - i + 1]));
    }
    if e.contains(c) {
        let j = choose|j: int| 0 <= j < e.len() && e[j] == c;
        assert(p[k - 1 - j] == c);
    }
}

/// Law: the initial transition to `t` enters the whole ancestry path of `t`
/// that the states reported, outermost first: each entered state is a
/// substate of the one before, `t` comes last, and (below the depth bound)
/// the first is a child of the top state.
pub proof fn lemma_initial_entries(log: Seq<(StateId, u16, QHsmResult, DynEvent)>, t: StateId, p: Seq<usize>)
    requires
        answered_path(log, t, p),
        t != TOP_STATE,
    ensures
        ({
            let e = p.reverse();
            &&& e.len() > 0
            &&& e.last() == t
            &&& e.len() < MAX_NEST_DEPTH ==> answered_super(log, e[0], TOP_STATE)
            &&& forall|i: int| 0 <= i < e.len() - 1 ==> #[trigger] answered_super(log, e[i + 1], e[i])
        }),
{
    let e = p.reverse();
    let k = p.len() as int;
    assert forall|i: int| 0 <= i < e.len() - 1 implies #[trigger] answered_super(log, e[i + 1], e[i]) by {
        let j = k - 2 - i;
        assert(answered_super(log, p[j], p[j + 1]));
    }
}

/// The records a transition produces from the ancestry paths of the
/// current state, of the LCA source and of the target: the exits up to the
/// LCA, innermost first, then the entries down to the target.
pub open spec fn tran_records(current_path: Seq<usize>, source_path: Seq<usize>, target_path: Seq<usize>) -> Seq<HsmRecord> {
    let lca = lca_of(source_path, target_path);
    exit_records(exits_of(current_path, lca)) + entry_records(entries_of(target_path, lca))
}

/// `trail`, from position `start` on, holds the records of a transition
/// from `source` to `target` taken in state `current`, over ancestry paths
/// that the answers in `log` gave: that of `current`, that of the LCA
/// source (the superstate `source` named, on a self-transition) and that
/// of `target`; the shallow history went from `h0` to `h1` by the exits.
pub open spec fn tran_shape(
    log: Seq<(StateId, u16, QHsmResult, DynEvent)>,
    current: StateId,
    source: StateId,
    target: StateId,
    trail: Seq<HsmRecord>,
    start: int,
    h0: Map<usize, usize>,
    h1: Map<usize, usize>,
) -> bool {
    exists|cp: Seq<usize>, sp: Seq<usize>, tp: Seq<usize>| #![trigger tran_records(cp, sp, tp)]
        {
            &&& answered_path(log, current, cp)
            &&& answered_path(log, target, tp)
            &&& source != target ==> answered_path(log, source, sp)
            &&& source == target ==> exists|sup: StateId| answered_super(log, source, sup) && answered_path(log, sup, sp)
            &&& trail.len() >= start + tran_records(cp, sp, tp).len()
            &&& trail.subrange(start, start + tran_records(cp, sp, tp).len()) == tran_records(cp, sp, tp)
            &&& h1 == exit_history(h0, cp, exits_of(cp, lca_of(sp, tp)).len())
        }
}

/// A prefix stays a prefix when something is appended.
pub proof fn lemma_prefix_push<A>(a: Seq<A>, b: Seq<A>, x: A)
    requires
        a.is_prefix_of(b),
    ensures
        a.is_prefix_of(b.push(x)),
{
    assert(a =~= b.push(x).subrange(0, a.len() as int)) by {
        assert forall|i: int| 0 <= i < a.len() implies a[i] == b.push(x).subrange(0, a.len() as int)[i] by {
            assert(a[i] == b.subrange(0, a.len() as int)[i]);
        }
    }
}

/// A dispatch trail: the transition record `rec` right after the dispatch
/// record, then the transition's own records `tr`.
pub proof fn lemma_settled_tran(t0: Seq<HsmRecord>, tm: Seq<HsmRecord>, t: Seq<HsmRecord>, rec: HsmRecord, tr: Seq<HsmRecord>)
    requires
        tm == t0.push(rec),
        tm.is_prefix_of(t),
        t.len() >= tm.len() + tr.len(),
        t.subrange(tm.len() as int, tm.len() + tr.len() as int) == tr,
    ensures
        t0.is_prefix_of(t),
        t[t0.len() as int] == rec,
        t.subrange(t0.len() as int + 1, t0.len() + 1 + tr.len() as int) == tr,
{
    assert(t[t0.len() as int] == tm[t0.len() as int]);
    assert(t0 =~= t.subrange(0, t0.len() as int)) by {
        assert forall|i: int| 0 <= i < t0.len() implies t0[i] == t[i] by {
            assert(t[i] == tm[i]);
        }
    }
}
/// Being a prefix is transitive.
pub proof fn lemma_prefix_trans<A>(a: Seq<A>, b: Seq<A>, c: Seq<A>)
    requires
        a.is_prefix_of(b),
        b.is_prefix_of(c),
    ensures
        a.is_prefix_of(c),
{
    assert(a =~= c.subrange(0, a.len() as int)) by {
        assert forall|i: int| 0 <= i < a.len() implies a[i] == c.subrange(0, a.len() as int)[i] by {
            assert(a[i] == b.subrange(0, a.len() as int)[i]);
            assert(b[i] == c.subrange(0, b.len() as int)[i]);
        }
    }
}

/// The superstate that an answer to the empty signal names: the state in
/// `Super`, the top state for any other answer.
pub open spec fn super_of(a: QHsmResult) -> StateId {
    match a {
        QHsmResult::Super(sup) => sup,
        _ => TOP_STATE,
    }
}

impl<S: StateHandlers> QHsm<S> {
    /// Internal consistency: the state storage is intact and the history
    /// table well formed.
    pub closed spec fn wf(&self) -> bool {
        self.state.intact() && self.history.wf()
    }

    /// The current (leaf) state.
    pub closed spec fn current(&self) -> usize {
        self.state@
    }

    /// The shallow-history table.
    pub closed spec fn history_map(&self) -> Map<usize, usize> {
        self.history@
    }

    /// The application data.
    pub closed spec fn data(&self) -> S {
        self.sm
    }

    /// Trace records produced and not yet taken.
    pub closed spec fn recs(&self) -> Seq<HsmRecord> {
        self.records@
    }

    /// Every question put to the states so far, oldest first: the state,
    /// the signal and the answer (the top state answers `Ignored`).
    pub closed spec fn asked(&self) -> Seq<(StateId, u16, QHsmResult, DynEvent)> {
        self.asked@
    }

    /// Every step the machine took, oldest first, in the form of trace
    /// records, whether or not tracing was on. An entry or exit record is
    /// written exactly when that state's entry or exit action runs.
    pub closed spec fn trail(&self) -> Seq<HsmRecord> {
        self.trail@
    }

    /// The initial pseudo-state.
    pub closed spec fn initial(&self) -> StateId {
        self.temp
    }

    /// `after` is `self` once the initial transition ran: the initial
    /// pseudo-state was asked first; without a `Tran` answer the machine
    /// stayed where it was, with one it settled in the target or in a state
    /// some state named as its initial transition.
    pub open spec fn inited(self, after: Self) -> bool {
        let b = self.asked().len() as int;
        &&& after.wf()
        &&& self.asked().is_prefix_of(after.asked())
        &&& after.asked().len() > b
        &&& after.asked()[b].0 == self.initial()
        &&& after.asked()[b].1 == Q_INIT_SIG_VAL
        &&& !(after.asked()[b].2 is Tran) ==> after.current() == self.current()
        &&& after.asked()[b].2 is Tran ==> after.current() == after.asked()[b].2->Tran_0 || exists|k: int|
            b < k < after.asked().len() && (#[trigger] after.asked()[k]).1 == Q_INIT_SIG_VAL
                && after.asked()[k].2 == QHsmResult::Tran(after.current())
    }

    /// `after` is `self` once the state `src` answered `a` to an event with
    /// signal `sig` (after the dispatch record): a `Tran` or `TranHist` answer
    /// runs the transition to its target (the remembered child for
    /// `TranHist`), whose exits and entries follow the ancestry paths the
    /// states gave (each exited state becoming its parent's remembered child
    /// in the shallow history), and then the target or a state an initial
    /// transition named becomes current; any other answer leaves the state
    /// and the history as they were and adds one internal-transition or
    /// ignored record.
    pub open spec fn settled(self, after: Self, sig: Signal, src: StateId, a: QHsmResult) -> bool {
        let tb = self.trail().len() as int + 1;
        let tgt = match a {
            QHsmResult::Tran(t) => t,
            QHsmResult::TranHist(p) => history_target(self.history_map(), p),
            _ => 0,
        };
        &&& (a is Tran || a is TranHist) ==> ({
            &&& after.trail().len() > tb
            &&& after.trail()[tb] == (if a is Tran {
                HsmRecord::Tran(sig, src, tgt)
            } else {
                HsmRecord::TranHist(sig, src, tgt)
            })
            &&& tran_shape(after.asked(), self.current(), src, tgt, after.trail(), tb + 1, self.history_map(), after.history_map())
            &&& after.current() == tgt || exists|k: int|
                self.asked().len() <= k < after.asked().len() && (#[trigger] after.asked()[k]).1 == Q_INIT_SIG_VAL
                    && after.asked()[k].2 == QHsmResult::Tran(after.current())
        })
        &&& !(a is Tran || a is TranHist) ==> ({
            &&& after.current() == self.current()
            &&& after.history_map() == self.history_map()
            &&& after.trail().len() == tb + 1
            &&& after.trail().subrange(0, tb) == self.trail().push(HsmRecord::Dispatch(sig, self.current()))
            &&& a is Handled ==> after.trail()[tb] == HsmRecord::InternTran(sig, src)
            &&& !(a is Handled) ==> after.trail()[tb] is Ignored
        })
    }

    /// `after` is `self` once `event` was dispatched: the current state was
    /// handed `event` first, then the superstate each answer named, until one
    /// answered otherwise; that answer settled the outcome
    /// (see [`QHsm::settled`]). The machine moved only on a `Tran` or
    /// `TranHist` answer.
    pub open spec fn dispatched(self, after: Self, event: DynEvent) -> bool {
        let sig = event.header.signal;
        let b = self.asked().len() as int;
        &&& after.wf()
        &&& self.asked().is_prefix_of(after.asked())
        &&& after.asked().len() > b
        &&& after.asked()[b].0 == self.current()
        &&& after.asked()[b].1 == sig@
        &&& after.current() != self.current() ==> exists|k: int|
            b <= k < after.asked().len() && ((#[trigger] after.asked()[k]).2 is Tran || after.asked()[k].2 is TranHist)
        &&& after.trail()[self.trail().len() as int] == HsmRecord::Dispatch(sig, self.current())
        &&& exists|kr: int| #![trigger after.asked()[kr]]
            {
                &&& b <= kr < after.asked().len()
                &&& forall|j: int| b <= j <= kr ==> (#[trigger] after.asked()[j]).1 == sig@ && after.asked()[j].3 == event
                &&& forall|j: int| b <= j < kr ==> ((#[trigger] after.asked()[j]).2 matches QHsmResult::Super(x)
                    && after.asked()[j + 1].0 == x)
                &&& self.settled(after, sig, after.asked()[kr].0, after.asked()[kr].2)
            }
    }

    /// A state machine over `sm`, starting at the top state, whose initial
    /// pseudo-state is `initial`.
    pub fn new(sm: S, initial: StateId) -> (h: QHsm<S>)
        ensures
            h.wf(),
            h.current() == TOP_STATE,
            h.history_map() == Map::<usize, usize>::empty(),
            h.data() == sm,
            h.recs() == Seq::<HsmRecord>::empty(),
            h.asked() == Seq::<(StateId, u16, QHsmResult, DynEvent)>::empty(),
            h.trail() == Seq::<HsmRecord>::empty(),
            h.initial() == initial,
    {
        QHsm {
            state: Dup::new(TOP_STATE),
            temp: initial,
            sm,
            history: History::new(),
            records: Vec::new(),
            asked: Ghost(Seq::empty()),
            trail: Ghost(Seq::empty()),
        }
    }

    /// Hands out (and forgets) the trace records produced so far.
    pub fn take_records(&mut self) -> (r: Vec<HsmRecord>)
        ensures
            r@ == old(self).recs(),
            final(self).recs() == Seq::<HsmRecord>::empty(),
            final(self).wf() == old(self).wf(),
            final(self).current() == old(self).current(),
            final(self).history_map() == old(self).history_map(),
    {
        let mut r = Vec::new();
        std::mem::swap(&mut r, &mut self.records);
        r
    }

    /// Appends `r` to the trail, and to the trace when tracing. Entry and
    /// exit records are written only where the action runs.
    fn note(&mut self, trace: bool, r: HsmRecord)
        requires
            !(r is StateEntry),
            !(r is StateExit),
        ensures
            final(self).recs() == (if trace { old(self).recs().push(r) } else { old(self).recs() }),
            final(self).state == old(self).state,
            final(self).history == old(self).history,
            final(self).temp == old(self).temp,
            final(self).asked() == old(self).asked(),
            final(self).trail() == old(self).trail().push(r),
            extends(final(self).recs(), old(self).recs(), trace),
    {
        if trace {
            self.records.push(r);
        }
        self.trail = Ghost(self.trail@.push(r));
    }

    /// The current leaf state.
    pub fn state_handler(&self) -> (r: StateId)
        requires
            self.wf(),
        ensures
            r == self.current(),
    {
        self.state.get()
    }

    /// The application data.
    pub fn sm(&self) -> (r: &S)
        ensures
            *r == self.data(),
    {
        &self.sm
    }

    /// The application data, mutably; the machine's own state stays as it is.
    pub fn sm_mut(&mut self) -> (r: &mut S)
        ensures
            *r == old(self).data(),
            final(self).data() == *final(r),
            final(self).wf() == old(self).wf(),
            final(self).current() == old(self).current(),
            final(self).history_map() == old(self).history_map(),
            final(self).recs() == old(self).recs(),
    {
        &mut self.sm
    }

    /// The top state handler: ignores every event.
    pub fn top_state(_e: &DynEvent) -> (r: QHsmResult)
        ensures
            r == QHsmResult::Ignored,
    {
        QHsmResult::Ignored
    }

    fn call(&mut self, s: StateId, sig: u16) -> (r: QHsmResult)
        ensures
            final(self).state == old(self).state,
            final(self).history == old(self).history,
            final(self).temp == old(self).temp,
            final(self).records == old(self).records,
            final(self).trail == old(self).trail,
            final(self).asked() == old(self).asked().push((s, sig, r, final(self).asked().last().3)),
            final(self).asked().last().3.header.signal@ == sig,
            s == TOP_STATE ==> r == QHsmResult::Ignored,
    {
        let e = Event::empty_dyn(Signal::from_raw(sig));
        let r = if s == TOP_STATE {
            QHsmResult::Ignored
        } else {
            self.sm.handle(s, &e)
        };
        self.asked = Ghost(self.asked@.push((s, sig, r, e)));
        r
    }

    /// The superstate of `s` as `s` reports it (the top state for the top
    /// state and for a state that does not name one).
    fn get_super(&mut self, s: StateId) -> (r: StateId)
        requires
            old(self).wf(),
        ensures
            final(self).wf(),
            final(self).current() == old(self).current(),
            final(self).history_map() == old(self).history_map(),
            s == TOP_STATE ==> r == TOP_STATE,
            final(self).recs() == old(self).recs(),
            final(self).asked() == old(self).asked().push((s, Q_EMPTY_SIG_VAL, final(self).asked().last().2, final(self).asked().last().3)),
            final(self).trail() == old(self).trail(),
            r == super_of(final(self).asked().last().2),
    {
        match self.call(s, Q_EMPTY_SIG_VAL) {
            QHsmResult::Super(sup) => if s == TOP_STATE { TOP_STATE } else { sup },
            _ => TOP_STATE,
        }
    }

    /// Whether the machine is in `state` or one of its substates.
    pub fn is_in(&mut self, state: StateId) -> (r: bool)
        requires
            old(self).wf(),
        ensures
            final(self).wf(),
            final(self).current() == old(self).current(),
            final(self).history_map() == old(self).history_map(),
            final(self).recs() == old(self).recs(),
            old(self).asked().is_prefix_of(final(self).asked()),
            forall|k: int| old(self).asked().len() <= k < final(self).asked().len() ==> (#[trigger] final(self).asked()[k]).1
                == Q_EMPTY_SIG_VAL,
            r <==> (state == TOP_STATE || state == old(self).current() || exists|k: int|
                old(self).asked().len() <= k < final(self).asked().len() && (#[trigger] final(self).asked()[k]).2
                    == QHsmResult::Super(state)),
    {
        let mut cur = self.state.get();
        let mut n: usize = 0;
        let ghost base = old(self).asked().len();
        while n <= MAX_NEST_DEPTH
            invariant
                self.recs() == old(self).recs(),
                self.wf(),
                self.current() == old(self).current(),
                self.history_map() == old(self).history_map(),
                base == old(self).asked().len(),
                self.asked().len() == base + n,
                self.asked().subrange(0, base as int) == old(self).asked(),
                forall|k: int| base <= k < self.asked().len() ==> (#[trigger] self.asked()[k]).1 == Q_EMPTY_SIG_VAL,
                n == 0 ==> cur == old(self).current(),
                n > 0 ==> cur == super_of(self.asked().last().2),
                n > 0 ==> old(self).current() != state,
                forall|k: int| base <= k < self.asked().len() - 1 ==> (#[trigger] self.asked()[k]).2 != QHsmResult::Super(state),
            decreases MAX_NEST_DEPTH + 1 - n,
        {
            if cur == state {
                proof {
                    if n > 0 {
                        let k = self.asked().len() - 1;
                        assert(self.asked()[k] == self.asked().last());
                        if cur != TOP_STATE {
                            assert(self.asked()[k].2 == QHsmResult::Super(state));
                        }
                    }
                    assert(old(self).asked() =~= self.asked().subrange(0, base as int));
                }
                return true;
            }
            if cur == TOP_STATE {
                proof {
                    if n > 0 {
                        let k = self.asked().len() - 1;
                        assert(self.asked()[k] == self.asked().last());
                    }
                    assert(old(self).asked() =~= self.asked().subrange(0, base as int));
                }
                return false;
            }
            let ghost a0 = self.asked();
            cur = self.get_super(cur);
            proof {
                assert(self.asked().subrange(0, base as int) =~= a0.subrange(0, base as int));
                assert forall|k: int| base <= k < self.asked().len() - 1 implies (#[trigger] self.asked()[k]).2 != QHsmResult::Super(state) by {
                    assert(self.asked()[k] == a0[k]);
                    if k == a0.len() - 1 {
                        assert(a0[k] == a0.last());
                    }
                }
                assert forall|k: int| base <= k < self.asked().len() implies (#[trigger] self.asked()[k]).1 == Q_EMPTY_SIG_VAL by {
                    if k < a0.len() {
                        assert(self.asked()[k] == a0[k]);
                    }
                }
            }
            n += 1;
        }
        let r = cur == state || state == TOP_STATE;
        proof {
            let k = self.asked().len() - 1;
            assert(self.asked()[k] == self.asked().last());
            assert(old(self).asked() =~= self.asked().subrange(0, base as int));
        }
        r
    }

    /// The ancestry path of `s` (from `s` upward, excluding the top state),
    /// at most [`MAX_NEST_DEPTH`] long.
    fn path_to_top(&mut self, s: StateId) -> (p: Vec<usize>)
        requires
            old(self).wf(),
        ensures
            final(self).wf(),
            final(self).current() == old(self).current(),
            final(self).history_map() == old(self).history_map(),
            p@.len() <= MAX_NEST_DEPTH,
            s != TOP_STATE ==> p@.len() > 0 && p@[0] == s,
            s == TOP_STATE ==> p@.len() == 0,
            forall|i: int| 0 <= i < p@.len() ==> p@[i] != TOP_STATE,
            final(self).recs() == old(self).recs(),
            final(self).trail() == old(self).trail(),
            old(self).asked().is_prefix_of(final(self).asked()),
            answered_path(final(self).asked(), s, p@),
    {
        let mut path: Vec<usize> = Vec::new();
        let mut cur = s;
        assert(old(self).asked().is_prefix_of(self.asked())) by {
            assert(self.asked() =~= self.asked().subrange(0, self.asked().len() as int));
        }
        while cur != TOP_STATE && path.len() < MAX_NEST_DEPTH
            invariant
                old(self).asked().is_prefix_of(self.asked()),
                self.recs() == old(self).recs(),
                self.wf(),
                self.current() == old(self).current(),
                self.history_map() == old(self).history_map(),
                path@.len() <= MAX_NEST_DEPTH,
                path@.len() == 0 ==> cur == s,
                path@.len() > 0 ==> path@[0] == s,
                forall|i: int| 0 <= i < path@.len() ==> path@[i] != TOP_STATE,
                self.trail() == old(self).trail(),
                forall|i: int| 0 <= i < path@.len() - 1 ==> #[trigger] answered_super(self.asked(), path@[i], path@[i + 1]),
                path@.len() > 0 ==> answered_super(self.asked(), path@.last(), cur),
            decreases MAX_NEST_DEPTH - path@.len(),
        {
            let ghost p0 = path@;
            path.push(cur);
            let ghost a0 = self.asked();
            cur = self.get_super(cur);
            proof {
                assert(a0.is_prefix_of(self.asked())) by {
                    assert(a0 =~= self.asked().subrange(0, a0.len() as int));
                }
                lemma_prefix_trans(old(self).asked(), a0, self.asked());
                assert forall|x: StateId, y: StateId| answered_super(a0, x, y) implies answered_super(self.asked(), x, y) by {
                    let k = choose|k: int| 0 <= k < a0.len() && (#[trigger] a0[k]).0 == x && a0[k].1 == Q_EMPTY_SIG_VAL && super_of(a0[k].2) == y;
                    assert(self.asked()[k] == a0[k]);
                }
                let kl = a0.len() as int;
                assert(self.asked()[kl] == self.asked().last());
                assert(answered_super(self.asked(), path@.last(), cur));
                assert forall|i: int| 0 <= i < path@.len() - 1 implies #[trigger] answered_super(self.asked(), path@[i], path@[i + 1]) by {
                    if i < p0.len() - 1 {
                        assert(answered_super(a0, p0[i], p0[i + 1]));
                    } else {
                        assert(p0.last() == path@[i]);
                        assert(answered_super(a0, p0.last(), path@[i + 1]));
                    }
                }
            }
        }
        proof {
            if 0 < path@.len() < MAX_NEST_DEPTH {
                assert(cur == TOP_STATE);
            }
        }
        path
    }

    /// Runs the entry action of `s`, and records it: in the trail, and in
    /// the trace when tracing.
    fn call_entry(&mut self, s: StateId, trace: bool)
        requires
            old(self).wf(),
        ensures
            final(self).wf(),
            final(self).current() == old(self).current(),
            final(self).history_map() == old(self).history_map(),
            final(self).recs() == (if trace { old(self).recs().push(HsmRecord::StateEntry(s)) } else { old(self).recs() }),
            extends(final(self).recs(), old(self).recs(), trace),
            final(self).asked() == old(self).asked().push((s, Q_ENTRY_SIG_VAL, final(self).asked().last().2, final(self).asked().last().3)),
            final(self).trail() == old(self).trail().push(HsmRecord::StateEntry(s)),
    {
        let _ = self.call(s, Q_ENTRY_SIG_VAL);
        if trace {
            self.records.push(HsmRecord::StateEntry(s));
        }
        self.trail = Ghost(self.trail@.push(HsmRecord::StateEntry(s)));
    }

    /// Runs the exit action of `s`, and records it: in the trail, and in
    /// the trace when tracing.
    fn call_exit(&mut self, s: StateId, trace: bool)
        requires
            old(self).wf(),
        ensures
            final(self).wf(),
            final(self).current() == old(self).current(),
            final(self).history_map() == old(self).history_map(),
            final(self).recs() == (if trace { old(self).recs().push(HsmRecord::StateExit(s)) } else { old(self).recs() }),
            extends(final(self).recs(), old(self).recs(), trace),
            final(self).asked() == old(self).asked().push((s, Q_EXIT_SIG_VAL, final(self).asked().last().2, final(self).asked().last().3)),
            final(self).trail() == old(self).trail().push(HsmRecord::StateExit(s)),
    {
        let _ = self.call(s, Q_EXIT_SIG_VAL);
        if trace {
            self.records.push(HsmRecord::StateExit(s));
        }
        self.trail = Ghost(self.trail@.push(HsmRecord::StateExit(s)));
    }

    /// Runs the entry actions of `entries` in order, tracing each.
    fn enter_all(&mut self, entries: &Vec<usize>, trace: bool)
        requires
            old(self).wf(),
        ensures
            final(self).wf(),
            final(self).current() == old(self).current(),
            final(self).history_map() == old(self).history_map(),
            extends(final(self).recs(), old(self).recs(), trace),
            final(self).asked().len() == old(self).asked().len() + entries@.len(),
            final(self).asked().subrange(0, old(self).asked().len() as int) == old(self).asked(),
            forall|i: int| 0 <= i < entries@.len() ==> (#[trigger] final(self).asked()[old(self).asked().len() + i]).0
                == entries@[i] && final(self).asked()[old(self).asked().len() + i].1 == Q_ENTRY_SIG_VAL,
            final(self).trail() == old(self).trail() + entry_records(entries@),
    {
        let mut i: usize = 0;
        let ghost base = old(self).asked().len();
        assert(self.asked().subrange(0, base as int) =~= old(self).asked());
        assert(self.trail() =~= old(self).trail() + entry_records(entries@.take(0)));
        while i < entries.len()
            invariant
                self.wf(),
                self.current() == old(self).current(),
                self.history_map() == old(self).history_map(),
                extends(self.recs(), old(self).recs(), trace),
                i <= entries@.len(),
                base == old(self).asked().len(),
                self.asked().len() == base + i,
                self.asked().subrange(0, base as int) == old(self).asked(),
                forall|j: int| 0 <= j < i ==> (#[trigger] self.asked()[base + j]).0 == entries@[j] && self.asked()[base + j].1
                    == Q_ENTRY_SIG_VAL,
                self.trail() == old(self).trail() + entry_records(entries@.take(i as int)),
            decreases entries@.len() - i,
        {
            let ghost a0 = self.asked();
            let ghost before = self.recs();
            self.call_entry(entries[i], trace);
            proof {
                assert(self.asked().subrange(0, base as int) =~= a0.subrange(0, base as int));
                assert forall|j: int| 0 <= j < i + 1 implies (#[trigger] self.asked()[base + j]).0 == entries@[j]
                    && self.asked()[base + j].1 == Q_ENTRY_SIG_VAL by {
                    if j < i {
                        assert(self.asked()[base + j] == a0[base + j]);
                    } else {
                        assert(self.asked()[base + j] == self.asked().last());
                    }
                }
            }
            proof {
                lemma_extends_trans(self.recs(), before, old(self).recs(), trace);
                assert(entry_records(entries@.take(i + 1)) =~= entry_records(entries@.take(i as int)).push(
                    HsmRecord::StateEntry(entries@[i as int]),
                ));
                assert(self.trail() =~= old(self).trail() + entry_records(entries@.take(i + 1)));
            }
            i += 1;
        }
        assert(entries@.take(entries@.len() as int) =~= entries@);
    }

    /// Executes the initial transition: the initial pseudo-state must answer
    /// `Tran(target)`; the path down to `target` is entered top-down, then
    /// nested initial transitions run.
    pub fn init(&mut self) -> (r: Result<(), QHsmError>)
        requires
            old(self).wf(),
        ensures
            final(self).wf(),
            r is Err ==> final(self).current() == old(self).current(),
            final(self).history_map() == old(self).history_map(),
            final(self).recs() == old(self).recs(),
            old(self).asked().is_prefix_of(final(self).asked()),
            final(self).asked().len() > old(self).asked().len(),
            final(self).asked()[old(self).asked().len() as int].0 == old(self).initial(),
            final(self).asked()[old(self).asked().len() as int].1 == Q_INIT_SIG_VAL,
            r is Ok <==> final(self).asked()[old(self).asked().len() as int].2 is Tran,
            r is Err ==> r == Err::<(), QHsmError>(QHsmError::NoInitialTransition) && final(self).asked().len()
                == old(self).asked().len() + 1,
            r is Ok ==> final(self).current() == final(self).asked()[old(self).asked().len() as int].2->Tran_0 || exists|k: int|
                old(self).asked().len() < k < final(self).asked().len() && (#[trigger] final(self).asked()[k]).1 == Q_INIT_SIG_VAL
                    && final(self).asked()[k].2 == QHsmResult::Tran(final(self).current()),
            r is Ok ==> exists|p: Seq<usize>, steps: Seq<(usize, Seq<usize>)>|
                #![trigger entry_records(p.reverse()), init_records(final(self).asked()[old(self).asked().len() as int].2->Tran_0, steps)]
            {
                let t = final(self).asked()[old(self).asked().len() as int].2->Tran_0;
                &&& answered_path(final(self).asked(), t, p)
                &&& final(self).trail() == old(self).trail() + entry_records(p.reverse()).push(HsmRecord::InitTran(t))
                    + init_records(t, steps)
                &&& final(self).current() == init_at(t, steps, steps.len() as int)
                &&& forall|j: int| 0 <= j < steps.len() ==> answered_path(final(self).asked(), #[trigger] steps[j].0, steps[j].1)
            },
    {
        self.init_traced(false)
    }

    /// [`init`](Self::init), tracing each entry, the initial transition and
    /// each nested initial transition when `trace` is set.
    pub fn init_traced(&mut self, trace: bool) -> (r: Result<(), QHsmError>)
        requires
            old(self).wf(),
        ensures
            final(self).wf(),
            r is Err ==> final(self).current() == old(self).current() && final(self).recs() == old(self).recs(),
            final(self).history_map() == old(self).history_map(),
            extends(final(self).recs(), old(self).recs(), trace),
            old(self).asked().is_prefix_of(final(self).asked()),
            final(self).asked().len() > old(self).asked().len(),
            final(self).asked()[old(self).asked().len() as int].0 == old(self).initial(),
            final(self).asked()[old(self).asked().len() as int].1 == Q_INIT_SIG_VAL,
            r is Ok <==> final(self).asked()[old(self).asked().len() as int].2 is Tran,
            r is Err ==> r == Err::<(), QHsmError>(QHsmError::NoInitialTransition) && final(self).asked().len()
                == old(self).asked().len() + 1,
            r is Ok ==> final(self).current() == final(self).asked()[old(self).asked().len() as int].2->Tran_0 || exists|k: int|
                old(self).asked().len() < k < final(self).asked().len() && (#[trigger] final(self).asked()[k]).1 == Q_INIT_SIG_VAL
                    && final(self).asked()[k].2 == QHsmResult::Tran(final(self).current()),
            r is Ok ==> exists|p: Seq<usize>, steps: Seq<(usize, Seq<usize>)>|
                #![trigger entry_records(p.reverse()), init_records(final(self).asked()[old(self).asked().len() as int].2->Tran_0, steps)]
            {
                let t = final(self).asked()[old(self).asked().len() as int].2->Tran_0;
                &&& answered_path(final(self).asked(), t, p)
                &&& final(self).trail() == old(self).trail() + entry_records(p.reverse()).push(HsmRecord::InitTran(t))
                    + init_records(t, steps)
                &&& final(self).current() == init_at(t, steps, steps.len() as int)
                &&& forall|j: int| 0 <= j < steps.len() ==> answered_path(final(self).asked(), #[trigger] steps[j].0, steps[j].1)
            },
    {
        let temp = self.temp;
        let e = Event::empty_dyn(Signal::from_raw(Q_INIT_SIG_VAL));
        let answer = self.sm.handle(temp, &e);
        self.asked = Ghost(self.asked@.push((temp, Q_INIT_SIG_VAL, answer, e)));
        let ghost base = old(self).asked().len() as int;
        let ghost a0 = self.asked();
        assert(old(self).asked() =~= a0.subrange(0, base));
        let target = match answer {
            QHsmResult::Tran(t) => t,
            _ => { return Err(QHsmError::NoInitialTransition); },
        };
        let path = self.path_to_top(target);
        proof { lemma_prefix_trans(old(self).asked(), a0, self.asked()); }
        let mut i: usize = path.len();
        assert(path@.subrange(i as int, path@.len() as int).reverse() =~= Seq::<usize>::empty());
        assert(self.trail() =~= old(self).trail() + entry_records(path@.subrange(i as int, path@.len() as int).reverse()));
        while i > 0
            invariant
                self.trail() == old(self).trail() + entry_records(path@.subrange(i as int, path@.len() as int).reverse()),
                answered_path(self.asked(), target, path@),
                old(self).asked().is_prefix_of(self.asked()),
                a0.is_prefix_of(self.asked()),
                self.wf(),
                self.history_map() == old(self).history_map(),
                extends(self.recs(), old(self).recs(), trace),
                i <= path@.len(),
            decreases i,
        {
            i -= 1;
            let ghost b0 = self.asked();
            let ghost before = self.recs();
            self.call_entry(path[i], trace);
            proof {
                assert(b0 =~= self.asked().subrange(0, b0.len() as int));
                lemma_prefix_trans(old(self).asked(), b0, self.asked());
                lemma_prefix_trans(a0, b0, self.asked());
                lemma_answered_grow(b0, self.asked(), target, path@);
                let lhs = path@.subrange(i as int, path@.len() as int).reverse();
                let rhs = path@.subrange(i + 1, path@.len() as int).reverse().push(path@[i as int]);
                assert(lhs.len() == rhs.len());
                assert forall|m: int| 0 <= m < lhs.len() implies lhs[m] == rhs[m] by {
                    if m < lhs.len() - 1 {
                        assert(rhs[m] == path@.subrange(i + 1, path@.len() as int).reverse()[m]);
                    }
                }
                assert(lhs =~= rhs);
            }
            proof { lemma_extends_trans(self.recs(), before, old(self).recs(), trace); }
        }
        assert(path@.subrange(0, path@.len() as int) =~= path@);
        let ghost t_entered = self.trail();
        self.state.set(target);
        let ghost before = self.recs();
        self.note(trace, HsmRecord::InitTran(target));
        proof { lemma_extends_trans(self.recs(), before, old(self).recs(), trace); }
        let ghost before = self.recs();
        let ghost b1 = self.asked();
        let ghost b1t = self.trail();
        self.handle_nested_init(trace);
        proof {
            lemma_extends_trans(self.recs(), before, old(self).recs(), trace);
            lemma_prefix_trans(old(self).asked(), b1, self.asked());
            lemma_prefix_trans(a0, b1, self.asked());
            assert(self.asked()[base] == a0[base]);
            lemma_answered_grow(b1, self.asked(), target, path@);
            let steps = choose|steps: Seq<(usize, Seq<usize>)>| {
                &&& self.trail() == b1t + init_records(target, steps)
                &&& self.current() == init_at(target, steps, steps.len() as int)
                &&& forall|j: int| 0 <= j < steps.len() ==> answered_path(self.asked(), #[trigger] steps[j].0, steps[j].1)
            };
            assert(self.trail() =~= old(self).trail() + entry_records(path@.reverse()).push(HsmRecord::InitTran(target))
                + init_records(target, steps));
            if self.current() != target {
                let j = choose|j: int| b1.len() <= j < self.asked().len() && (#[trigger] self.asked()[j]).1 == Q_INIT_SIG_VAL
                    && self.asked()[j].2 == QHsmResult::Tran(self.current());
                assert(base < j);
            }
        }
        Ok(())
    }

    /// Dispatches `event`: the current state and then its superstates are
    /// asked until one answers something other than `Super`; a transition
    /// (or history transition) is then executed.
    pub fn dispatch(&mut self, event: &DynEvent)
        requires
            old(self).wf(),
        ensures
            final(self).wf(),
            forall|k: usize| old(self).history_map().contains_key(k) ==> #[trigger] final(self).history_map().contains_key(k),
            final(self).recs() == old(self).recs(),
            old(self).asked().is_prefix_of(final(self).asked()),
            final(self).asked().len() > old(self).asked().len(),
            final(self).asked()[old(self).asked().len() as int].0 == old(self).current(),
            final(self).asked()[old(self).asked().len() as int].1 == event.header.signal@,
            final(self).current() != old(self).current() ==> exists|k: int|
                old(self).asked().len() <= k < final(self).asked().len() && ((#[trigger] final(self).asked()[k]).2 is Tran
                    || final(self).asked()[k].2 is TranHist),
            old(self).dispatched(*final(self), *event),
    {
        self.dispatch_traced(event, false)
    }

    /// [`dispatch`](Self::dispatch), tracing the dispatch, its outcome and
    /// every exit, entry and nested initial transition when `trace` is set;
    /// the first record is the dispatch in the current state.
    #[verifier::rlimit(40)]
    pub fn dispatch_traced(&mut self, event: &DynEvent, trace: bool)
        requires
            old(self).wf(),
        ensures
            final(self).wf(),
            forall|k: usize| old(self).history_map().contains_key(k) ==> #[trigger] final(self).history_map().contains_key(k),
            extends(final(self).recs(), old(self).recs(), trace),
            trace ==> final(self).recs().len() > old(self).recs().len()
                && final(self).recs()[old(self).recs().len() as int] == HsmRecord::Dispatch(event.header.signal, old(self).current()),
            old(self).asked().is_prefix_of(final(self).asked()),
            final(self).asked().len() > old(self).asked().len(),
            final(self).asked()[old(self).asked().len() as int].0 == old(self).current(),
            final(self).asked()[old(self).asked().len() as int].1 == event.header.signal@,
            final(self).current() != old(self).current() ==> exists|k: int|
                old(self).asked().len() <= k < final(self).asked().len() && ((#[trigger] final(self).asked()[k]).2 is Tran
                    || final(self).asked()[k].2 is TranHist),
            final(self).trail()[old(self).trail().len() as int] == HsmRecord::Dispatch(event.header.signal, old(self).current()),
            exists|kr: int| #![trigger final(self).asked()[kr]]
                {
                    &&& old(self).asked().len() <= kr < final(self).asked().len()
                    &&& forall|j: int| old(self).asked().len() <= j <= kr ==> (#[trigger] final(self).asked()[j]).1
                        == event.header.signal@ && final(self).asked()[j].3 == *event
                    &&& forall|j: int| old(self).asked().len() <= j < kr ==> ((#[trigger] final(self).asked()[j]).2 matches QHsmResult::Super(x)
                        && final(self).asked()[j + 1].0 == x)
                    &&& old(self).settled(*final(self), event.header.signal, final(self).asked()[kr].0, final(self).asked()[kr].2)
                },
    {
        let sig = event.header.signal;
        let cur = self.state.get();
        self.note(trace, HsmRecord::Dispatch(sig, cur));
        let ghost first = self.recs();
        let mut s = cur;
        let mut result = QHsmResult::Ignored;
        let mut n: usize = 0;
        let ghost base = old(self).asked().len() as int;
        assert(old(self).asked().is_prefix_of(self.asked())) by {
            assert(self.asked() =~= self.asked().subrange(0, self.asked().len() as int));
        }
        assert(self.trail() == old(self).trail().push(HsmRecord::Dispatch(sig, cur)));
        while n <= MAX_NEST_DEPTH
            invariant_except_break
                result == QHsmResult::Ignored,
                self.asked().len() == base + n,
                self.asked().len() > base ==> (self.asked().last().2 matches QHsmResult::Super(x) && x == s),
            invariant
                self.trail() == old(self).trail().push(HsmRecord::Dispatch(sig, cur)),
                forall|j: int| base <= j < self.asked().len() ==> ((#[trigger] self.asked()[j]).1 == event.header.signal@ && self.asked()[j].3 == *event),
                forall|j: int| base <= j < self.asked().len() - 1 ==> ((#[trigger] self.asked()[j]).2 matches QHsmResult::Super(x)
                    && self.asked()[j + 1].0 == x),
                self.wf(),
                self.current() == old(self).current(),
                self.history_map() == old(self).history_map(),
                self.recs() == first,
                base == old(self).asked().len(),
                old(self).asked().is_prefix_of(self.asked()),
                self.asked().len() >= base + n,
                n == 0 ==> s == old(self).current(),
                self.asked().len() > base ==> self.asked()[base].0 == old(self).current() && self.asked()[base].1
                    == event.header.signal@,
            ensures
                self.wf(),
                self.current() == old(self).current(),
                self.history_map() == old(self).history_map(),
                self.recs() == first,
                old(self).asked().is_prefix_of(self.asked()),
                self.asked().len() > base,
                self.asked()[base].0 == old(self).current(),
                self.asked()[base].1 == event.header.signal@,
                (result is Tran || result is TranHist) ==> self.asked().last().2 == result,
                self.trail() == old(self).trail().push(HsmRecord::Dispatch(sig, cur)),
                forall|j: int| base <= j < self.asked().len() ==> ((#[trigger] self.asked()[j]).1 == event.header.signal@ && self.asked()[j].3 == *event),
                forall|j: int| base <= j < self.asked().len() - 1 ==> ((#[trigger] self.asked()[j]).2 matches QHsmResult::Super(x)
                    && self.asked()[j + 1].0 == x),
                (self.asked().last().2 is Super ==> result == QHsmResult::Ignored),
                (!(self.asked().last().2 is Super) ==> self.asked().last().0 == s && result == self.asked().last().2),
            decreases MAX_NEST_DEPTH + 1 - n,
        {
            let r = if s == TOP_STATE { QHsmResult::Ignored } else { self.sm.handle(s, event) };
            let ghost a0 = self.asked();
            self.asked = Ghost(self.asked@.push((s, event.header.signal@, r, *event)));
            proof {
                assert(a0 =~= self.asked().subrange(0, a0.len() as int));
                lemma_prefix_trans(old(self).asked(), a0, self.asked());
                if a0.len() > base {
                    assert(self.asked()[base] == a0[base]);
                    assert(a0.last() == a0[a0.len() - 1]);
                }
                assert forall|j: int| base <= j < self.asked().len() implies ((#[trigger] self.asked()[j]).1 == event.header.signal@ && self.asked()[j].3 == *event) by {
                    if j < a0.len() {
                        assert(self.asked()[j] == a0[j]);
                    }
                }
                assert forall|j: int| base <= j < self.asked().len() - 1 implies ((#[trigger] self.asked()[j]).2 matches QHsmResult::Super(x)
                    && self.asked()[j + 1].0 == x) by {
                    assert(self.asked()[j] == a0[j]);
                    if j + 1 < a0.len() {
                        assert(self.asked()[j + 1] == a0[j + 1]);
                    }
                }
                assert(self.asked().last() == (s, event.header.signal@, r, *event));
            }
            match r {
                QHsmResult::Super(sup) => {
                    s = sup;
                    n += 1;
                },
                _ => {
                    result = r;
                    break;
                },
            }
        }
        let source = s;
        let ghost before = self.recs();
        let ghost kr = self.asked().len() - 1;
        let ghost a1 = self.asked();
        let ghost t0 = self.trail();
        proof {
            assert(a1[kr] == a1.last());
        }
        match result {
            QHsmResult::Tran(target) => {
                self.note(trace, HsmRecord::Tran(sig, source, target));
                proof { lemma_extends_trans(self.recs(), before, first, trace); }
                let ghost mid = self.recs();
                let ghost tm = self.trail();
                self.execute_tran(source, target, trace);
                proof {
                    lemma_extends_trans(self.recs(), mid, first, trace);
                    lemma_prefix_trans(old(self).asked(), a1, self.asked());
                    assert(self.asked()[kr] == a1[kr]);
                    assert(self.asked()[base] == a1[base]);
                    assert(tm.is_prefix_of(self.trail()));
                    assert(self.trail()[t0.len() as int] == tm[t0.len() as int]);
                    assert(t0 =~= self.trail().subrange(0, t0.len() as int)) by {
                        assert forall|m: int| 0 <= m < t0.len() implies t0[m] == self.trail()[m] by {
                            assert(self.trail()[m] == tm[m]);
                        }
                    }
                }
            },
            QHsmResult::TranHist(parent) => {
                let target = self.history.target(parent);
                self.note(trace, HsmRecord::TranHist(sig, source, target));
                proof { lemma_extends_trans(self.recs(), before, first, trace); }
                let ghost mid = self.recs();
                let ghost tm = self.trail();
                self.execute_tran(source, target, trace);
                proof {
                    lemma_extends_trans(self.recs(), mid, first, trace);
                    lemma_prefix_trans(old(self).asked(), a1, self.asked());
                    assert(self.asked()[kr] == a1[kr]);
                    assert(self.asked()[base] == a1[base]);
                    assert(self.trail()[t0.len() as int] == tm[t0.len() as int]);
                    assert(t0 =~= self.trail().subrange(0, t0.len() as int)) by {
                        assert forall|m: int| 0 <= m < t0.len() implies t0[m] == self.trail()[m] by {
                            assert(self.trail()[m] == tm[m]);
                        }
                    }
                }
            },
            QHsmResult::Handled => {
                self.note(trace, HsmRecord::InternTran(sig, source));
                proof { assert(self.trail().subrange(0, t0.len() as int) =~= t0); }
            },
            _ => {
                self.note(trace, HsmRecord::Ignored(sig, source));
                proof { assert(self.trail().subrange(0, t0.len() as int) =~= t0); }
            },
        }
        proof {
            lemma_extends_trans(self.recs(), first, old(self).recs(), trace);
            if trace {
                assert(self.recs()[old(self).recs().len() as int] == first[old(self).recs().len() as int]);
            }
            assert(self.trail()[old(self).trail().len() as int] == t0[old(self).trail().len() as int]);
            lemma_prefix_trans(old(self).asked(), a1, self.asked());
            assert(self.asked()[kr] == a1[kr]);
            assert forall|j: int| old(self).asked().len() <= j <= kr implies ((#[trigger] self.asked()[j]).1 == event.header.signal@ && self.asked()[j].3 == *event) by {
                assert(self.asked()[j] == a1[j]);
            }
            assert forall|j: int| old(self).asked().len() <= j < kr implies ((#[trigger] self.asked()[j]).2 matches QHsmResult::Super(x)
                && self.asked()[j + 1].0 == x) by {
                assert(self.asked()[j] == a1[j]);
                assert(self.asked()[j + 1] == a1[j + 1]);
            }
        }
    }

    /// Executes a transition from `source` to `target`: exits from the
    /// current state up to the LCA (recording shallow history of each exited
    /// state in its superstate), enters down to `target`, makes `target`
    /// current and runs nested initial transitions.
    fn execute_tran(&mut self, source: StateId, target: StateId, trace: bool)
        requires
            old(self).wf(),
        ensures
            final(self).wf(),
            forall|k: usize| old(self).history_map().contains_key(k) ==> #[trigger] final(self).history_map().contains_key(k),
            extends(final(self).recs(), old(self).recs(), trace),
            old(self).asked().is_prefix_of(final(self).asked()),
            old(self).trail().is_prefix_of(final(self).trail()),
            tran_shape(
                final(self).asked(),
                old(self).current(),
                source,
                target,
                final(self).trail(),
                old(self).trail().len() as int,
                old(self).history_map(),
                final(self).history_map(),
            ),
            exists|k: int| old(self).asked().len() <= k < final(self).asked().len() && (#[trigger] final(self).asked()[k]).0 == target
                && final(self).asked()[k].1 == Q_INIT_SIG_VAL,
            final(self).current() == target || exists|k: int|
                old(self).asked().len() <= k < final(self).asked().len() && (#[trigger] final(self).asked()[k]).1 == Q_INIT_SIG_VAL
                    && final(self).asked()[k].2 == QHsmResult::Tran(final(self).current()),
    {
        let current = self.state.get();
        let ghost a0 = self.asked();
        let target_path = self.path_to_top(target);
        let ghost lt = self.asked();
        let ghost mut sup_g: StateId = 0;
        let source_path = if source == target {
            let ghost a1 = self.asked();
            let sup = self.get_super(source);
            proof {
                assert(a1 =~= self.asked().subrange(0, a1.len() as int));
                lemma_prefix_trans(a0, a1, self.asked());
                let k = a1.len() as int;
                assert(self.asked()[k] == self.asked().last());
                assert(answered_super(self.asked(), source, sup));
                sup_g = sup;
                lemma_answered_grow(lt, self.asked(), target, target_path@);
            }
            let ghost a2 = self.asked();
            let p = self.path_to_top(sup);
            proof {
                lemma_prefix_trans(a0, a2, self.asked());
                lemma_answered_grow(a2, self.asked(), target, target_path@);
                let kk = choose|kk: int| 0 <= kk < a2.len() && (#[trigger] a2[kk]).0 == source && a2[kk].1 == Q_EMPTY_SIG_VAL
                    && super_of(a2[kk].2) == sup;
                assert(self.asked()[kk] == a2[kk]);
            }
            p
        } else {
            let ghost a1 = self.asked();
            let p = self.path_to_top(source);
            proof {
                lemma_prefix_trans(a0, a1, self.asked());
                lemma_answered_grow(lt, self.asked(), target, target_path@);
            }
            p
        };
        let ghost a3 = self.asked();
        assert(source == target ==> answered_super(a3, source, sup_g));
        let current_path = self.path_to_top(current);
        proof {
            lemma_prefix_trans(a0, a3, self.asked());
            lemma_answered_grow(a3, self.asked(), target, target_path@);
            if source == target {
                lemma_answered_grow(a3, self.asked(), sup_g, source_path@);
                let kk = choose|kk: int| 0 <= kk < a3.len() && (#[trigger] a3[kk]).0 == source && a3[kk].1 == Q_EMPTY_SIG_VAL
                    && super_of(a3[kk].2) == sup_g;
                assert(self.asked()[kk] == a3[kk]);
            } else {
                lemma_answered_grow(a3, self.asked(), source, source_path@);
            }
        }
        let ghost a4 = self.asked();
        assert(answered_path(a4, target, target_path@));
        assert(answered_path(a4, current, current_path@));
        assert(source != target ==> answered_path(a4, source, source_path@));
        assert(source == target ==> answered_path(a4, sup_g, source_path@) && answered_super(a4, source, sup_g));
        let plan = plan_transition(&current_path, &source_path, &target_path);
        proof { lemma_pos_of(current_path@, plan.lca); }
        let ghost t_start = self.trail();
        assert(t_start == old(self).trail());
        assert(self.trail() =~= old(self).trail() + exit_records(plan.exits@.take(0)));
        let mut i: usize = 0;
        while i < plan.exits.len()
            invariant
                old(self).asked().is_prefix_of(self.asked()),
                a4.is_prefix_of(self.asked()),
                self.wf(),
                forall|k: usize| old(self).history_map().contains_key(k) ==> #[trigger] self.history_map().contains_key(k),
                extends(self.recs(), old(self).recs(), trace),
                i <= plan.exits@.len(),
                self.trail() == old(self).trail() + exit_records(plan.exits@.take(i as int)),
                plan.exits@ == exits_of(current_path@, plan.lca),
                plan.exits@.len() <= current_path@.len(),
                pos_of(current_path@, plan.lca) <= current_path@.len(),
                self.history_map() == exit_history(old(self).history_map(), current_path@, i as nat),
            decreases plan.exits@.len() - i,
        {
            let s = plan.exits[i];
            let ghost b0 = self.asked();
            assert(s == current_path@[i as int]) by {
                assert(plan.exits@[i as int] == s);
                assert(current_path@.take(pos_of(current_path@, plan.lca) as int)[i as int] == current_path@[i as int]);
            }
            let parent = if i + 1 < current_path.len() { current_path[i + 1] } else { TOP_STATE };
            if parent != TOP_STATE {
                self.history.record(parent, s);
            }
            let ghost before = self.recs();
            self.call_exit(s, trace);
            proof {
                assert(b0 =~= self.asked().subrange(0, b0.len() as int));
                lemma_prefix_trans(old(self).asked(), b0, self.asked());
                lemma_prefix_trans(a4, b0, self.asked());
            }
            proof {
                lemma_extends_trans(self.recs(), before, old(self).recs(), trace);
                assert(exit_records(plan.exits@.take(i + 1)) =~= exit_records(plan.exits@.take(i as int)).push(
                    HsmRecord::StateExit(s),
                ));
                assert(self.trail() =~= old(self).trail() + exit_records(plan.exits@.take(i + 1)));
            }
            i += 1;
        }
        assert(plan.exits@.take(plan.exits@.len() as int) =~= plan.exits@);
        let ghost before = self.recs();
        let ghost b1 = self.asked();
        self.enter_all(&plan.entries, trace);
        proof {
            lemma_extends_trans(self.recs(), before, old(self).recs(), trace);
            assert(b1 =~= self.asked().subrange(0, b1.len() as int));
            lemma_prefix_trans(old(self).asked(), b1, self.asked());
            lemma_prefix_trans(a4, b1, self.asked());
        }
        let ghost t_planned = self.trail();
        assert(t_planned == old(self).trail() + tran_records(current_path@, source_path@, target_path@));
        self.state.set(target);
        let ghost before = self.recs();
        let ghost b2 = self.asked();
        self.handle_nested_init(trace);
        proof {
            lemma_extends_trans(self.recs(), before, old(self).recs(), trace);
            lemma_prefix_trans(old(self).asked(), b2, self.asked());
            lemma_prefix_trans(a4, b2, self.asked());
            let k = b2.len() as int;
            assert(self.asked()[k].0 == target);
            if self.current() != target {
                let j = choose|j: int| b2.len() <= j < self.asked().len() && (#[trigger] self.asked()[j]).1 == Q_INIT_SIG_VAL
                    && self.asked()[j].2 == QHsmResult::Tran(self.current());
                assert(old(self).asked().len() <= j);
            }
            let fin = self.asked();
            lemma_answered_grow(a4, fin, current, current_path@);
            lemma_answered_grow(a4, fin, target, target_path@);
            if source == target {
                lemma_answered_grow(a4, fin, sup_g, source_path@);
                let kk = choose|kk: int| 0 <= kk < a4.len() && (#[trigger] a4[kk]).0 == source && a4[kk].1 == Q_EMPTY_SIG_VAL
                    && super_of(a4[kk].2) == sup_g;
                assert(fin[kk] == a4[kk]);
                assert(answered_super(fin, source, sup_g));
            } else {
                lemma_answered_grow(a4, fin, source, source_path@);
            }
            let tr = tran_records(current_path@, source_path@, target_path@);
            assert(old(self).trail() =~= t_planned.subrange(0, old(self).trail().len() as int));
            lemma_prefix_trans(old(self).trail(), t_planned, self.trail());
            assert(self.trail().subrange(old(self).trail().len() as int, old(self).trail().len() + tr.len() as int) =~= tr) by {
                assert forall|m: int| 0 <= m < tr.len() implies self.trail()[old(self).trail().len() + m] == tr[m] by {
                    assert(self.trail()[old(self).trail().len() + m] == t_planned[old(self).trail().len() + m]);
                }
            }
            assert(tran_shape(fin, old(self).current(), source, target, self.trail(), old(self).trail().len() as int,
                old(self).history_map(), self.history_map()));
        }
    }

    /// Follows nested initial transitions from the current state: while the
    /// current state answers `Tran(next)` to the initial signal, the states
    /// between it and `next` are entered and `next` becomes current.
    fn handle_nested_init(&mut self, trace: bool)
        requires
            old(self).wf(),
        ensures
            final(self).wf(),
            final(self).history_map() == old(self).history_map(),
            extends(final(self).recs(), old(self).recs(), trace),
            old(self).trail().is_prefix_of(final(self).trail()),
            old(self).asked().is_prefix_of(final(self).asked()),
            final(self).asked().len() > old(self).asked().len(),
            final(self).asked()[old(self).asked().len() as int].0 == old(self).current(),
            final(self).asked()[old(self).asked().len() as int].1 == Q_INIT_SIG_VAL,
            !(final(self).asked()[old(self).asked().len() as int].2 is Tran) ==> final(self).current() == old(self).current()
                && final(self).asked().len() == old(self).asked().len() + 1,
            final(self).current() == old(self).current() || exists|k: int|
                old(self).asked().len() <= k < final(self).asked().len() && (#[trigger] final(self).asked()[k]).1 == Q_INIT_SIG_VAL
                    && final(self).asked()[k].2 == QHsmResult::Tran(final(self).current()),
            exists|steps: Seq<(usize, Seq<usize>)>| {
                &&& final(self).trail() == old(self).trail() + init_records(old(self).current(), steps)
                &&& final(self).current() == init_at(old(self).current(), steps, steps.len() as int)
                &&& forall|j: int| 0 <= j < steps.len() ==> answered_path(final(self).asked(), #[trigger] steps[j].0, steps[j].1)
            },
    {
        let mut n: usize = 0;
        let ghost mut steps: Seq<(usize, Seq<usize>)> = Seq::empty();
        assert(self.trail() =~= old(self).trail() + init_records(old(self).current(), steps));
        let ghost base = old(self).asked().len();
        assert(old(self).asked().is_prefix_of(self.asked())) by {
            assert(self.asked() =~= self.asked().subrange(0, self.asked().len() as int));
        }
        assert(old(self).trail().is_prefix_of(self.trail())) by {
            assert(self.trail() =~= self.trail().subrange(0, self.trail().len() as int));
        }
        while n < MAX_NEST_DEPTH
            invariant_except_break
                n == 0 ==> self.asked().len() == base && self.current() == old(self).current(),
                n > 0 ==> self.asked().len() > base && self.asked()[base as int].0 == old(self).current()
                    && self.asked()[base as int].1 == Q_INIT_SIG_VAL && self.asked()[base as int].2 is Tran,
            invariant
                self.trail() == old(self).trail() + init_records(old(self).current(), steps),
                self.current() == init_at(old(self).current(), steps, steps.len() as int),
                forall|j: int| 0 <= j < steps.len() ==> answered_path(self.asked(), #[trigger] steps[j].0, steps[j].1),
                self.wf(),
                self.history_map() == old(self).history_map(),
                extends(self.recs(), old(self).recs(), trace),
                base == old(self).asked().len(),
                old(self).asked().is_prefix_of(self.asked()),
                old(self).trail().is_prefix_of(self.trail()),
                self.current() == old(self).current() || exists|k: int|
                    base <= k < self.asked().len() && (#[trigger] self.asked()[k]).1 == Q_INIT_SIG_VAL
                        && self.asked()[k].2 == QHsmResult::Tran(self.current()),
            ensures
                self.trail() == old(self).trail() + init_records(old(self).current(), steps),
                self.current() == init_at(old(self).current(), steps, steps.len() as int),
                forall|j: int| 0 <= j < steps.len() ==> answered_path(self.asked(), #[trigger] steps[j].0, steps[j].1),
                self.wf(),
                self.history_map() == old(self).history_map(),
                extends(self.recs(), old(self).recs(), trace),
                old(self).asked().is_prefix_of(self.asked()),
                old(self).trail().is_prefix_of(self.trail()),
                self.asked().len() > base,
                self.asked()[base as int].0 == old(self).current(),
                self.asked()[base as int].1 == Q_INIT_SIG_VAL,
                !(self.asked()[base as int].2 is Tran) ==> self.current() == old(self).current() && self.asked().len() == base + 1,
                self.current() == old(self).current() || exists|k: int|
                    base <= k < self.asked().len() && (#[trigger] self.asked()[k]).1 == Q_INIT_SIG_VAL
                        && self.asked()[k].2 == QHsmResult::Tran(self.current()),
            decreases MAX_NEST_DEPTH - n,
        {
            let cur = self.state.get();
            let ghost a0 = self.asked();
            let answer = self.call(cur, Q_INIT_SIG_VAL);
            let ghost kq = a0.len() as int;
            proof {
                assert(self.asked()[kq] == (cur, Q_INIT_SIG_VAL, answer, self.asked()[kq].3));
                assert(a0.is_prefix_of(self.asked())) by {
                    assert(a0 =~= self.asked().subrange(0, a0.len() as int));
                }
                lemma_prefix_trans(old(self).asked(), a0, self.asked());
                if n > 0 {
                    assert(self.asked()[base as int] == a0[base as int]);
                }
                if self.current() != old(self).current() {
                    let k = choose|k: int| base <= k < a0.len() && (#[trigger] a0[k]).1 == Q_INIT_SIG_VAL
                        && a0[k].2 == QHsmResult::Tran(self.current());
                    assert(self.asked()[k] == a0[k]);
                }
                assert forall|j: int| 0 <= j < steps.len() implies answered_path(self.asked(), #[trigger] steps[j].0, steps[j].1) by {
                    lemma_answered_grow(a0, self.asked(), steps[j].0, steps[j].1);
                }
            }
            let next = match answer {
                QHsmResult::Tran(next) => next,
                _ => { break; },
            };
            let ghost a1 = self.asked();
            let next_path = self.path_to_top(next);
            let cur = self.state.get();
            let idx = position_of(&next_path, cur);
            proof { lemma_pos_of(next_path@, cur); }
            let ghost t_start = self.trail();
            let mut i: usize = idx;
            assert(next_path@.subrange(idx as int, idx as int).reverse() =~= Seq::<usize>::empty());
            assert(self.trail() =~= t_start + entry_records(next_path@.subrange(i as int, idx as int).reverse()));
            while i > 0
                invariant
                    idx <= next_path@.len(),
                    i <= idx,
                    answered_path(self.asked(), next, next_path@),
                    self.trail() == t_start + entry_records(next_path@.subrange(i as int, idx as int).reverse()),
                    self.wf(),
                    self.history_map() == old(self).history_map(),
                    extends(self.recs(), old(self).recs(), trace),
                    a1.is_prefix_of(self.asked()),
                    old(self).trail().is_prefix_of(self.trail()),
                    i <= next_path@.len(),
                decreases i,
            {
                i -= 1;
                let ghost a2 = self.asked();
                let ghost before = self.recs();
                let ghost t0 = self.trail();
                self.call_entry(next_path[i], trace);
                proof {
                    assert(a2.is_prefix_of(self.asked())) by {
                        assert(a2 =~= self.asked().subrange(0, a2.len() as int));
                    }
                    lemma_prefix_trans(a1, a2, self.asked());
                    lemma_answered_grow(a2, self.asked(), next, next_path@);
                }
                proof {
                    lemma_extends_trans(self.recs(), before, old(self).recs(), trace);
                    lemma_prefix_push(old(self).trail(), t0, HsmRecord::StateEntry(next_path@[i as int]));
                    let lhs = next_path@.subrange(i as int, idx as int).reverse();
                    let rhs = next_path@.subrange(i + 1, idx as int).reverse().push(next_path@[i as int]);
                    assert(lhs.len() == rhs.len());
                    assert forall|m: int| 0 <= m < lhs.len() implies lhs[m] == rhs[m] by {
                        if m < lhs.len() - 1 {
                            assert(rhs[m] == next_path@.subrange(i + 1, idx as int).reverse()[m]);
                        }
                    }
                    assert(lhs =~= rhs);
                    assert(self.trail() =~= t_start + entry_records(next_path@.subrange(i as int, idx as int).reverse()));
                }
            }
            assert(next_path@.subrange(0, idx as int) =~= next_path@.take(idx as int));
            let ghost before = self.recs();
            let ghost t1 = self.trail();
            self.note(trace, HsmRecord::StateInit(cur));
            proof {
                lemma_extends_trans(self.recs(), before, old(self).recs(), trace);
                lemma_prefix_push(old(self).trail(), t1, HsmRecord::StateInit(cur));
            }
            self.state.set(next);
            proof {
                let s2 = steps.push((next, next_path@));
                assert(s2.drop_last() =~= steps);
                assert(init_at(old(self).current(), s2, steps.len() as int) == cur);
                assert(self.trail() =~= old(self).trail() + init_records(old(self).current(), s2));
                assert forall|j: int| 0 <= j < s2.len() implies answered_path(self.asked(), #[trigger] s2[j].0, s2[j].1) by {
                    if j < steps.len() {
                        assert(s2[j] == steps[j]);
                        lemma_answered_grow(a1, self.asked(), steps[j].0, steps[j].1);
                    }
                }
                steps = s2;
                lemma_prefix_trans(old(self).asked(), a1, self.asked());
                assert(self.asked()[kq] == a1[kq]);
                assert(self.asked()[base as int] == a1[base as int]);
            }
            n += 1;
        }
    }
}

impl<S: StateHandlers> QHsm<S> {
    /// Checks well-formedness (it holds of every machine built by
    /// [`QHsm::new`] and kept by its operations).
    pub fn check_wf(&self) -> (b: bool)
        ensures
            b == self.wf(),
    {
        self.state.is_intact() && self.history.is_wf()
    }
}

impl<S: StateHandlers> QAsm for QHsm<S> {
    /// Runs the initial transition; a machine whose initial pseudo-state
    /// names no target stays where it is.
    fn init(&mut self)
        ensures
            old(self).wf() ==> old(self).inited(*final(self)),
            !old(self).wf() ==> *final(self) == *old(self),
    {
        if self.check_wf() {
            let _ = QHsm::init(self);
        }
    }

    fn dispatch(&mut self, event: &DynEvent)
        ensures
            old(self).wf() ==> old(self).dispatched(*final(self), *event),
            !old(self).wf() ==> *final(self) == *old(self),
    {
        if self.check_wf() {
            QHsm::dispatch(self, event);
        }
    }
}

impl<S: StateHandlers> crate::qf::active::ActiveBehavior for QHsm<S> {
    fn on_start(&mut self, ctx: &mut crate::qf::active::ActiveContext)
        ensures
            old(self).start_spec(*old(ctx), *final(self), *final(ctx)),
    {
        if self.check_wf() {
            let _ = QHsm::init(self);
        }
    }

    /// What starting does, relating the object and its context before and after.
    open spec fn start_spec(self, ctx: crate::qf::active::ActiveContext, after: Self, ctx_after: crate::qf::active::ActiveContext) -> bool {
        &&& self.wf() ==> self.inited(after)
        &&& !self.wf() ==> after == self
        &&& ctx_after == ctx
    }

    fn on_event(&mut self, ctx: &mut crate::qf::active::ActiveContext, event: DynEvent)
        ensures
            old(self).event_spec(*old(ctx), event, *final(self), *final(ctx)),
    {
        if self.check_wf() {
            QHsm::dispatch(self, &event);
        }
    }

    /// What handling `event` does, relating the object and its context before and after.
    open spec fn event_spec(self, ctx: crate::qf::active::ActiveContext, event: DynEvent, after: Self, ctx_after: crate::qf::active::ActiveContext) -> bool {
        &&& self.wf() ==> self.dispatched(after, event)
        &&& !self.wf() ==> after == self
        &&& ctx_after == ctx
    }
}

} // verus!
