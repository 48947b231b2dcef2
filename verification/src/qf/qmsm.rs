//! Table-driven hierarchical state machine.
//!
//! The hierarchy is data: a table of [`QMState`]s, each naming its
//! superstate and whether it has entry, exit and initial actions. The
//! application supplies the handlers and actions through [`QMActions`].

use vstd::prelude::*;
use crate::qf::active::{ActiveBehavior, ActiveContext};
use crate::qf::event::{DynEvent, Signal};
use crate::qf::hsm::{entry_records, exit_records, extends, history_target, lemma_extends_trans, lemma_prefix_trans, lemma_settled_tran, pos_of, lemma_pos_of, position_of, History, HsmRecord, QAsm};

verus! {

/// One state of a state table.
#[derive(Debug, Clone, Copy, PartialEq, Eq, Structural)]
pub struct QMState {
    /// Index of the superstate (`None` at the top).
    pub superstate: Option<usize>,
    /// Whether the state has an entry action.
    pub has_entry: bool,
    /// Whether the state has an exit action.
    pub has_exit: bool,
    /// Whether the state has an initial transition.
    pub has_init: bool,
}

/// What a state handler did with an event.
#[derive(Debug, Clone, Copy, PartialEq, Eq, Structural)]
pub enum QMsmResult {
    /// Handled, no transition.
    Handled,
    /// Not handled here: try the given superstate.
    Super(usize),
    /// Transition to the given state.
    Tran(usize),
    /// Transition to the last active substate of the given state.
    TranHist(usize),
    /// Deliberately ignored.
    Ignored,
    /// Not handled anywhere.
    Unhandled,
}

/// The application side of a table-driven state machine.
pub trait QMActions {
    /// Handles `event` in state `state`.
    fn handle(&mut self, state: usize, event: &DynEvent) -> QMsmResult;

    /// Entry action of `state`.
    fn entry(&mut self, state: usize);

    /// Exit action of `state`.
    fn exit(&mut self, state: usize);

    /// Initial transition of `state`: the substate to go to, if any.
    fn init(&mut self, state: usize) -> Option<usize>;
}

/// Ancestry of `s` in `table` (from `s` upward), following at most `fuel`
/// superstate links.
pub open spec fn chain(table: Seq<QMState>, s: usize, fuel: nat) -> Seq<usize>
    decreases fuel,
{
    if fuel == 0 || s >= table.len() {
        Seq::empty()
    } else {
        seq![s] + match table[s as int].superstate {
            Some(p) => chain(table, p, (fuel - 1) as nat),
            None => Seq::empty(),
        }
    }
}

/// Ancestry of `s` in `table` (a well-formed table has no longer one).
pub open spec fn path_of(table: Seq<QMState>, s: usize) -> Seq<usize> {
    chain(table, s, table.len())
}

/// The first state of `p1` that also occurs in `p2`, if any.
pub open spec fn common_of(p1: Seq<usize>, p2: Seq<usize>) -> Option<usize>
    decreases p1.len(),
{
    if p1.len() == 0 {
        None
    } else if p2.contains(p1[0]) {
        Some(p1[0])
    } else {
        common_of(p1.drop_first(), p2)
    }
}

/// States exited on the way from `current` up to the common ancestor.
pub open spec fn qm_exits(current_path: Seq<usize>, lca: Option<usize>) -> Seq<usize> {
    match lca {
        Some(l) => current_path.take(pos_of(current_path, l) as int),
        None => current_path,
    }
}

/// States entered on the way down from the common ancestor to the target,
/// outermost first.
pub open spec fn qm_entries(target_path: Seq<usize>, lca: Option<usize>) -> Seq<usize> {
    match lca {
        Some(l) => target_path.take(pos_of(target_path, l) as int).reverse(),
        None => target_path.reverse(),
    }
}

/// `common_of` is the first state of `p1` occurring in `p2`.
pub proof fn lemma_common_of(p1: Seq<usize>, p2: Seq<usize>)
    ensures
        common_of(p1, p2) matches Some(c) ==> p2.contains(c) && p1.contains(c),
        common_of(p1, p2) is None ==> forall|i: int| 0 <= i < p1.len() ==> !p2.contains(#[trigger] p1[i]),
    decreases p1.len(),
{
    if p1.len() > 0 {
        lemma_common_of(p1.drop_first(), p2);
        if !p2.contains(p1[0]) {
            match common_of(p1.drop_first(), p2) {
                Some(c) => {
                    let k = choose|k: int| 0 <= k < p1.drop_first().len() && p1.drop_first()[k] == c;
                    assert(p1[k + 1] == c);
                },
                None => {
                    assert forall|i: int| 0 <= i < p1.len() implies !p2.contains(#[trigger] p1[i]) by {
                        if i > 0 {
                            assert(p1[i] == p1.drop_first()[i - 1]);
                        }
                    }
                },
            }
        }
    }
}

/// Law: a table-driven transition never exits nor enters the common
/// ancestor, and enters the target last.
pub proof fn lemma_qm_transition_shape(current_path: Seq<usize>, source_path: Seq<usize>, target_path: Seq<usize>)
    requires
        target_path.len() > 0,
    ensures
        ({
            let lca = common_of(source_path, target_path);
            &&& lca matches Some(l) ==> !qm_exits(current_path, lca).contains(l) && !qm_entries(target_path, lca).contains(l)
            &&& (lca is None || target_path[0] != lca->Some_0) ==> qm_entries(target_path, lca).len() > 0
                && qm_entries(target_path, lca).last() == target_path[0]
        }),
{
    let lca = common_of(source_path, target_path);
    lemma_common_of(source_path, target_path);
    match lca {
        Some(l) => {
            lemma_pos_of(current_path, l);
            lemma_pos_of(target_path, l);
            let ex = qm_exits(current_path, lca);
            let en = qm_entries(target_path, lca);
            let t = target_path.take(pos_of(target_path, l) as int);
            if ex.contains(l) {
                let k = choose|k: int| 0 <= k < ex.len() && ex[k] == l;
                assert(current_path[k] == l);
            }
            if en.contains(l) {
                let k = choose|k: int| 0 <= k < en.len() && en[k] == l;
                assert(en[k] == t[t.len() - 1 - k]);
                assert(target_path[t.len() - 1 - k] == l);
            }
            if target_path[0] != l {
                assert(pos_of(target_path, l) > 0);
                assert(en.last() == t[0]);
            }
        },
        None => {
            assert(qm_entries(target_path, lca).last() == target_path[0]);
        },
    }
}

/// Every link of the chain is a link of the table.
pub proof fn lemma_chain_links(table: Seq<QMState>, s: usize, fuel: nat)
    ensures
        forall|i: int| 0 <= i < chain(table, s, fuel).len() ==> (#[trigger] chain(table, s, fuel)[i]) < table.len(),
        chain(table, s, fuel).len() <= fuel,
        chain(table, s, fuel).len() > 0 ==> chain(table, s, fuel)[0] == s,
    decreases fuel,
{
    if fuel > 0 && s < table.len() {
        match table[s as int].superstate {
            Some(p) => {
                lemma_chain_links(table, p, (fuel - 1) as nat);
                let c = chain(table, s, fuel);
                assert forall|i: int| 0 <= i < c.len() implies (#[trigger] c[i]) < table.len() by {
                    if i > 0 {
                        assert(c[i] == chain(table, p, (fuel - 1) as nat)[i - 1]);
                    }
                }
            },
            None => {},
        }
    }
}

/// Each state of a chain has the next one as its superstate.
proof fn lemma_chain_parent(table: Seq<QMState>, s: usize, fuel: nat)
    ensures
        forall|i: int| 0 <= i < chain(table, s, fuel).len() - 1 ==> table[#[trigger] chain(table, s, fuel)[i] as int].superstate
            == Some(chain(table, s, fuel)[i + 1]),
    decreases fuel,
{
    if fuel > 0 && s < table.len() {
        match table[s as int].superstate {
            Some(p) => {
                lemma_chain_parent(table, p, (fuel - 1) as nat);
                lemma_chain_links(table, p, (fuel - 1) as nat);
                let c = chain(table, s, fuel);
                let d = chain(table, p, (fuel - 1) as nat);
                assert forall|i: int| 0 <= i < c.len() - 1 implies table[#[trigger] c[i] as int].superstate == Some(c[i + 1]) by {
                    if i > 0 {
                        assert(c[i] == d[i - 1]);
                        assert(c[i + 1] == d[i]);
                    } else {
                        assert(c[1] == d[0]);
                    }
                }
            },
            None => {},
        }
    }
}

/// Law: the states a nested initial transition from `c` to `t` enters are
/// a chain of superstate links of the table from just below `c` down to
/// `t`, outermost first; `c` itself is not entered again (`c` a proper
/// ancestor of `t`).
pub proof fn lemma_qm_nested_entries(table: Seq<QMState>, c: usize, t: usize)
    requires
        t < table.len(),
        path_of(table, t).contains(c),
        c != t,
    ensures
        ({
            let e = qm_entries(path_of(table, t), Some(c));
            &&& e.len() > 0
            &&& e.last() == t
            &&& table[e[0] as int].superstate == Some(c)
            &&& forall|i: int| 0 <= i < e.len() - 1 ==> table[#[trigger] e[i + 1] as int].superstate == Some(e[i])
            &&& !e.contains(c)
        }),
{
    let p = path_of(table, t);
    lemma_pos_of(p, c);
    lemma_chain_links(table, t, table.len());
    lemma_chain_parent(table, t, table.len());
    let k = pos_of(p, c) as int;
    let e = qm_entries(p, Some(c));
    assert(k > 0) by {
        if k == 0 {
            assert(p[0] == t);
        }
    }
    assert(e.len() == k);
    assert forall|i: int| 0 <= i < k implies e[i] == p[k - 1 - i] by {}
    let km = k - 1;
    assert(table[p[km] as int].superstate == Some(p[km + 1]));
    assert forall|i: int| 0 <= i < e.len() - 1 implies table[#[trigger] e[i + 1] as int].superstate == Some(e[i]) by {
        let j = k - 2 - i;
        assert(e[i + 1] == p[j]);
        assert(e[i] == p[j + 1]);
        assert(table[p[j] as int].superstate == Some(p[j + 1]));
    }
    if e.contains(c) {
        let j = choose|j: int| 0 <= j < e.len() && e[j] == c;
        assert(p[k - 1 - j] == c);
    }
}

/// Law: the initial transition to `t` enters the whole ancestry of `t`,
/// outermost first: each entered state is a child of the one before, and
/// `t` comes last.
pub proof fn lemma_qm_initial_entries(table: Seq<QMState>, t: usize)
    requires
        t < table.len(),
    ensures
        ({
            let e = path_of(table, t).reverse();
            &&& e.len() > 0
            &&& e.last() == t
            &&& forall|i: int| 0 <= i < e.len() - 1 ==> table[#[trigger] e[i + 1] as int].superstate == Some(e[i])
        }),
{
    let p = path_of(table, t);
    lemma_chain_links(table, t, table.len());
    lemma_chain_parent(table, t, table.len());
    let e = p.reverse();
    let k = p.len() as int;
    assert forall|i: int| 0 <= i < e.len() - 1 implies table[#[trigger] e[i + 1] as int].superstate == Some(e[i]) by {
        let j = k - 2 - i;
        assert(e[i + 1] == p[j]);
        assert(e[i] == p[j + 1]);
        assert(table[p[j] as int].superstate == Some(p[j + 1]));
    }
}

/// First state of `path1` occurring in `path2`.
pub fn find_common(path1: &Vec<usize>, path2: &Vec<usize>) -> (r: Option<usize>)
    ensures
        r == common_of(path1@, path2@),
{
    let mut i: usize = 0;
    assert(path1@.skip(0) =~= path1@);
    while i < path1.len()
        invariant
            i <= path1@.len(),
            common_of(path1@, path2@) == common_of(path1@.skip(i as int), path2@),
        decreases path1@.len() - i,
    {
        let a = path1[i];
        let k = position_of(path2, a);
        proof {
            lemma_pos_of(path2@, a);
            assert(path1@.skip(i as int).drop_first() =~= path1@.skip(i as int + 1));
        }
        if k < path2.len() {
            return Some(a);
        }
        i += 1;
    }
    None
}

/// The exit and entry records of a transition from `source` to `target`
/// taken in state `current` of `table`: the states from `current` up to the
/// common ancestor of the target and the source (its superstate on a
/// self-transition) are exited, then those below it down to the target
/// entered.
pub open spec fn qm_tran_records(table: Seq<QMState>, current: usize, source: usize, target: usize) -> Seq<HsmRecord> {
    let lca = qm_tran_lca(table, source, target);
    exit_records(qm_exits(path_of(table, current), lca)) + entry_records(qm_entries(path_of(table, target), lca))
}

/// The common ancestor of a transition from `source` to `target`: that of
/// the target and of the source (its superstate on a self-transition).
pub open spec fn qm_tran_lca(table: Seq<QMState>, source: usize, target: usize) -> Option<usize> {
    let lca_source = if source == target {
        match table[source as int].superstate {
            Some(p) => p,
            None => source,
        }
    } else {
        source
    };
    common_of(path_of(table, lca_source), path_of(table, target))
}

/// The shallow history once `exits` were exited in order, starting from
/// `h`: each exited state of `table` with a superstate became its
/// superstate's remembered child.
pub open spec fn qm_exit_history(table: Seq<QMState>, h: Map<usize, usize>, exits: Seq<usize>) -> Map<usize, usize>
    decreases exits.len(),
{
    if exits.len() == 0 {
        h
    } else {
        let h1 = qm_exit_history(table, h, exits.drop_last());
        let s = exits.last();
        if s < table.len() && table[s as int].superstate is Some {
            h1.insert(table[s as int].superstate->Some_0, s)
        } else {
            h1
        }
    }
}

/// The action calls that the exit and entry records `recs` stand for, in
/// order: the exit action of each exited state of `table` that has one, and
/// the entry action of each entered state that has one.
pub open spec fn qm_action_calls(table: Seq<QMState>, recs: Seq<HsmRecord>) -> Seq<QMCall>
    decreases recs.len(),
{
    if recs.len() == 0 {
        Seq::empty()
    } else {
        let rest = qm_action_calls(table, recs.drop_last());
        match recs.last() {
            HsmRecord::StateExit(s) => if s < table.len() && table[s as int].has_exit {
                rest.push(QMCall::Exit(s))
            } else {
                rest
            },
            HsmRecord::StateEntry(s) => if s < table.len() && table[s as int].has_entry {
                rest.push(QMCall::Entry(s))
            } else {
                rest
            },
            _ => rest,
        }
    }
}

/// One more record adds its call, if any.
proof fn lemma_action_calls_push(table: Seq<QMState>, recs: Seq<HsmRecord>, x: HsmRecord)
    ensures
        qm_action_calls(table, recs.push(x)) == qm_action_calls(table, recs) + qm_action_calls(table, seq![x]),
{
    assert(recs.push(x).drop_last() =~= recs);
    assert(seq![x].drop_last() =~= Seq::<HsmRecord>::empty());
    assert(qm_action_calls(table, Seq::<HsmRecord>::empty()) == Seq::<QMCall>::empty());
    assert(qm_action_calls(table, recs) + Seq::<QMCall>::empty() =~= qm_action_calls(table, recs));
    match x {
        HsmRecord::StateExit(s) => {
            assert(qm_action_calls(table, recs) + seq![QMCall::Exit(s)] =~= qm_action_calls(table, recs).push(QMCall::Exit(s)));
        },
        HsmRecord::StateEntry(s) => {
            assert(qm_action_calls(table, recs) + seq![QMCall::Entry(s)] =~= qm_action_calls(table, recs).push(QMCall::Entry(s)));
        },
        _ => {},
    }
}

/// The state a run of nested initial transitions from `c` reached after
/// its first `i` steps, the initial actions having named `targets` in turn.
pub open spec fn qm_init_at(c: usize, targets: Seq<usize>, i: int) -> usize {
    if i <= 0 {
        c
    } else {
        targets[i - 1]
    }
}

/// The calls of a run of nested initial transitions from `c` over `table`
/// whose initial actions named `targets` in turn: for each step, the
/// initial action of the state it started from, then the entry actions of
/// the states of the target's ancestry below that state, outermost first.
pub open spec fn qm_init_calls(table: Seq<QMState>, c: usize, targets: Seq<usize>) -> Seq<QMCall>
    decreases targets.len(),
{
    if targets.len() == 0 {
        Seq::empty()
    } else {
        let from = qm_init_at(c, targets, targets.len() - 1);
        let t = targets.last();
        qm_init_calls(table, c, targets.drop_last()).push(QMCall::Init(from, Some(t))) + qm_action_calls(
            table,
            entry_records(qm_entries(path_of(table, t), Some(from))),
        )
    }
}

/// The calls of two runs of records, one after the other.
proof fn lemma_action_calls_add(table: Seq<QMState>, a: Seq<HsmRecord>, b: Seq<HsmRecord>)
    ensures
        qm_action_calls(table, a + b) == qm_action_calls(table, a) + qm_action_calls(table, b),
    decreases b.len(),
{
    if b.len() == 0 {
        assert(a + b =~= a);
        assert(qm_action_calls(table, a) + qm_action_calls(table, b) =~= qm_action_calls(table, a));
    } else {
        let x = b.last();
        let b0 = b.drop_last();
        assert(a + b =~= (a + b0).push(x));
        assert(b =~= b0.push(x));
        lemma_action_calls_add(table, a, b0);
        lemma_action_calls_push(table, a + b0, x);
        lemma_action_calls_push(table, b0, x);
        assert(qm_action_calls(table, a) + qm_action_calls(table, b0) + qm_action_calls(table, seq![x])
            =~= qm_action_calls(table, a) + (qm_action_calls(table, b0) + qm_action_calls(table, seq![x])));
    }
}

/// Exits and entries of a transition.
pub struct QmPlan {
    /// States to exit, innermost first.
    pub exits: Vec<usize>,
    /// States to enter, outermost first.
    pub entries: Vec<usize>,
    /// Their common ancestor, if any.
    pub lca: Option<usize>,
}

/// Plans a transition from the paths of the current state, of the LCA
/// source (the source, or its superstate on a self-transition) and of the
/// target.
pub fn plan_qm_transition(current_path: &Vec<usize>, source_path: &Vec<usize>, target_path: &Vec<usize>) -> (p: QmPlan)
    ensures
        p.lca == common_of(source_path@, target_path@),
        p.exits@ == qm_exits(current_path@, p.lca),
        p.entries@ == qm_entries(target_path@, p.lca),
{
    let lca = find_common(source_path, target_path);
    let ne = match lca {
        Some(l) => position_of(current_path, l),
        None => current_path.len(),
    };
    let nt = match lca {
        Some(l) => position_of(target_path, l),
        None => target_path.len(),
    };
    proof {
        match lca {
            Some(l) => {
                lemma_pos_of(current_path@, l);
                lemma_pos_of(target_path@, l);
            },
            None => {},
        }
    }
    let mut exits: Vec<usize> = Vec::new();
    let mut i: usize = 0;
    while i < ne
        invariant
            ne <= current_path@.len(),
            i <= ne,
            exits@ == current_path@.take(i as int),
        decreases ne - i,
    {
        exits.push(current_path[i]);
        i += 1;
        assert(exits@ =~= current_path@.take(i as int));
    }
    let mut entries: Vec<usize> = Vec::new();
    let mut j: usize = nt;
    while j > 0
        invariant
            nt <= target_path@.len(),
            j <= nt,
            entries@ == target_path@.subrange(j as int, nt as int).reverse(),
        decreases j,
    {
        j -= 1;
        entries.push(target_path[j]);
        assert(entries@ =~= target_path@.subrange(j as int, nt as int).reverse());
    }
    proof {
        assert(target_path@.subrange(0, nt as int) =~= target_path@.take(nt as int));
        assert(current_path@.take(current_path@.len() as int) =~= current_path@);
        assert(target_path@.take(target_path@.len() as int) =~= target_path@);
    }
    QmPlan { exits, entries, lca }
}

/// A call a table-driven machine made of its application actions, with
/// what came back.
pub enum QMCall {
    /// The handler of a state was given an event, and answered.
    Handle(usize, DynEvent, QMsmResult),
    /// The entry action of a state ran.
    Entry(usize),
    /// The exit action of a state ran.
    Exit(usize),
    /// A state was asked for its initial transition, and answered.
    Init(usize, Option<usize>),
}

/// A table-driven hierarchical state machine.
pub struct QMsm<S: QMActions> {
    table: Vec<QMState>,
    state: usize,
    temp: usize,
    sm: S,
    history: History,
    records: Vec<HsmRecord>,
    calls: Ghost<Seq<QMCall>>,
    trail: Ghost<Seq<HsmRecord>>,
}

impl<S: QMActions> QMsm<S> {
    /// Well-formedness: the current and initial states are in the table.
    pub closed spec fn wf(&self) -> bool {
        &&& self.state < self.table@.len()
        &&& self.temp < self.table@.len()
        &&& self.history.wf()
    }

    /// The state table.
    pub closed spec fn states(&self) -> Seq<QMState> {
        self.table@
    }

    /// The current state.
    pub closed spec fn current(&self) -> usize {
        self.state
    }

    /// Remembered last active substates.
    pub closed spec fn history_map(&self) -> Map<usize, usize> {
        self.history@
    }

    /// Trace records produced and not yet taken.
    pub closed spec fn recs(&self) -> Seq<HsmRecord> {
        self.records@
    }

    /// The application data.
    pub closed spec fn data(&self) -> S {
        self.sm
    }

    /// Every call made of the application actions so far, oldest first.
    pub closed spec fn calls(&self) -> Seq<QMCall> {
        self.calls@
    }

    /// Every step the machine took, oldest first, in the form of trace
    /// records, whether or not tracing was on.
    pub closed spec fn trail(&self) -> Seq<HsmRecord> {
        self.trail@
    }

    /// The target of the initial transition.
    pub closed spec fn initial(&self) -> usize {
        self.temp
    }

    /// `after` is `self` once the initial transition ran: each state on
    /// the way down to the initial target that has an entry action ran it,
    /// and the machine settled in that target or in a state an initial
    /// transition named (in the target itself when it has none).
    pub open spec fn inited(self, after: Self) -> bool {
        let b = self.calls().len() as int;
        let path = path_of(self.states(), self.initial());
        &&& after.wf()
        &&& after.states() == self.states()
        &&& self.calls().is_prefix_of(after.calls())
        &&& forall|i: int| 0 <= i < path.len() && path[i] < self.states().len() && self.states()[path[i] as int].has_entry
            ==> exists|k: int| b <= k < after.calls().len() && #[trigger] after.calls()[k] == QMCall::Entry(path[i])
        &&& !self.states()[self.initial() as int].has_init ==> after.current() == self.initial()
        &&& after.current() == self.initial() || exists|k: int|
            b <= k < after.calls().len() && (#[trigger] after.calls()[k] matches QMCall::Init(_, Some(t)) && t == after.current())
        &&& exists|targets: Seq<usize>, tail: Seq<QMCall>|
            #![trigger qm_init_calls(self.states(), self.initial(), targets), tail.len()]
            {
                &&& after.calls() == self.calls() + qm_action_calls(self.states(), entry_records(path.reverse()))
                    + qm_init_calls(self.states(), self.initial(), targets) + tail
                &&& after.current() == qm_init_at(self.initial(), targets, targets.len() as int)
                &&& tail.len() <= 1
                &&& tail.len() == 1 ==> (tail[0] matches QMCall::Init(s, a) && s == after.current() && (a is None
                    || a->Some_0 >= self.states().len()))
            }
    }

    /// `after` is `self` once the state `src` answered `a` to an event with
    /// signal `sig` (after the dispatch record, and with the calls from
    /// position `at` of `after.calls()` on left to the outcome): a `Tran` or
    /// `TranHist` answer naming a state of the table runs the transition (its
    /// exits and entries in the trail, the exit and entry actions they stand
    /// for called from `at` on, in that order, then the target or a state an
    /// initial transition named becomes current); any other answer leaves the
    /// state as it was, calls nothing more and adds one internal-transition or
    /// ignored record. A transition leaves each exited state with a
    /// superstate as that superstate's remembered child; nothing else
    /// changes the history.
    pub open spec fn settled(self, after: Self, sig: Signal, src: usize, a: QMsmResult, at: int) -> bool {
        let tb = self.trail().len() as int + 1;
        let tgt = match a {
            QMsmResult::Tran(t) => t,
            QMsmResult::TranHist(p) => history_target(self.history_map(), p),
            _ => 0,
        };
        let moves = (a is Tran || a is TranHist) && tgt < self.states().len();
        &&& moves ==> ({
            let tr = qm_tran_records(self.states(), self.current(), src, tgt);
            &&& after.trail().len() >= tb + 1 + tr.len()
            &&& after.trail()[tb] == (if a is Tran {
                HsmRecord::Tran(sig, src, tgt)
            } else {
                HsmRecord::TranHist(sig, src, tgt)
            })
            &&& after.trail().subrange(tb + 1, tb + 1 + tr.len() as int) == tr
            &&& after.history_map() == qm_exit_history(
                self.states(),
                self.history_map(),
                qm_exits(path_of(self.states(), self.current()), qm_tran_lca(self.states(), src, tgt)),
            )
            &&& after.calls().len() >= at + qm_action_calls(self.states(), tr).len()
            &&& after.calls().subrange(at, at + qm_action_calls(self.states(), tr).len()) == qm_action_calls(self.states(), tr)
            &&& after.current() == tgt || exists|k: int|
                self.calls().len() <= k < after.calls().len() && (#[trigger] after.calls()[k] matches QMCall::Init(_, Some(t))
                    && t == after.current())
            &&& !self.states()[tgt as int].has_init ==> after.current() == tgt
        })
        &&& !moves ==> ({
            &&& after.current() == self.current()
            &&& after.history_map() == self.history_map()
            &&& after.calls().len() == at
            &&& after.trail().len() == tb + 1
            &&& after.trail().subrange(0, tb) == self.trail().push(HsmRecord::Dispatch(sig, self.current()))
            &&& a is Handled ==> after.trail()[tb] == HsmRecord::InternTran(sig, src)
            &&& !(a is Handled) ==> after.trail()[tb] is Ignored
        })
    }

    /// `after` is `self` once `event` was dispatched: the current state's
    /// handler was handed `event` first, then the superstate each answer
    /// named, until one answered otherwise; that answer settled the
    /// outcome (see [`QMsm::settled`]). The machine moved only on a `Tran` or
    /// `TranHist` answer.
    pub open spec fn dispatched(self, after: Self, event: DynEvent) -> bool {
        let sig = event.header.signal;
        let b = self.calls().len() as int;
        &&& after.wf()
        &&& after.states() == self.states()
        &&& self.calls().is_prefix_of(after.calls())
        &&& after.calls().len() > b
        &&& after.calls()[b] matches QMCall::Handle(s0, g, _) && s0 == self.current() && g == event
        &&& after.current() != self.current() ==> exists|k: int|
            b <= k < after.calls().len() && (#[trigger] after.calls()[k] matches QMCall::Handle(_, _, a) && (a is Tran
                || a is TranHist))
        &&& after.trail()[self.trail().len() as int] == HsmRecord::Dispatch(sig, self.current())
        &&& exists|kr: int| #![trigger after.calls()[kr]]
            {
                &&& b <= kr < after.calls().len()
                &&& forall|j: int| b <= j <= kr ==> (#[trigger] after.calls()[j] matches QMCall::Handle(_, g, _) && g == event)
                &&& forall|j: int| b <= j < kr ==> (#[trigger] after.calls()[j] matches QMCall::Handle(_, _, QMsmResult::Super(x))
                    && (after.calls()[j + 1] matches QMCall::Handle(y, _, _) && y == x))
                &&& after.calls()[kr] matches QMCall::Handle(src, _, a) && self.settled(after, sig, src, a, kr + 1)
            }
    }

    /// A machine over `table` whose initial transition targets `initial`.
    pub fn new(sm: S, table: Vec<QMState>, initial: usize) -> (m: QMsm<S>)
        requires
            initial < table@.len(),
        ensures
            m.wf(),
            m.states() == table@,
            m.current() == initial,
            m.history_map() == Map::<usize, usize>::empty(),
            m.recs() == Seq::<HsmRecord>::empty(),
            m.data() == sm,
            m.calls() == Seq::<QMCall>::empty(),
            m.trail() == Seq::<HsmRecord>::empty(),
            m.initial() == initial,
    {
        QMsm {
            table,
            state: initial,
            temp: initial,
            sm,
            history: History::new(),
            records: Vec::new(),
            calls: Ghost(Seq::empty()),
            trail: Ghost(Seq::empty()),
        }
    }

    /// The application data.
    pub fn sm(&self) -> (r: &S)
        ensures
            *r == self.data(),
    {
        &self.sm
    }

    /// The application data, mutably; the machine's own state stays as it is.
    pub fn sm_mut(&mut self) -> (r: &mut S)
        ensures
            *r == old(self).data(),
            final(self).data() == *final(r),
            final(self).wf() == old(self).wf(),
            final(self).states() == old(self).states(),
            final(self).current() == old(self).current(),
            final(self).history_map() == old(self).history_map(),
            final(self).recs() == old(self).recs(),
    {
        &mut self.sm
    }

    /// The current state.
    pub fn state(&self) -> (s: usize)
        ensures
            s == self.current(),
    {
        self.state
    }

    /// The handler state consulted first on dispatch (the current state).
    pub fn state_handler(&self) -> (s: usize)
        ensures
            s == self.current(),
    {
        self.state
    }

    /// Hands out (and forgets) the trace records produced so far.
    pub fn take_records(&mut self) -> (r: Vec<HsmRecord>)
        ensures
            r@ == old(self).recs(),
            final(self).recs() == Seq::<HsmRecord>::empty(),
            final(self).wf() == old(self).wf(),
            final(self).states() == old(self).states(),
            final(self).current() == old(self).current(),
            final(self).history_map() == old(self).history_map(),
    {
        let mut r = Vec::new();
        std::mem::swap(&mut r, &mut self.records);
        r
    }

    /// Appends `r` to the trace when tracing.
    fn note(&mut self, trace: bool, r: HsmRecord)
        ensures
            final(self).recs() == (if trace { old(self).recs().push(r) } else { old(self).recs() }),
            final(self).table == old(self).table,
            final(self).state == old(self).state,
            final(self).temp == old(self).temp,
            final(self).history == old(self).history,
            final(self).calls() == old(self).calls(),
            final(self).trail() == old(self).trail().push(r),
            extends(final(self).recs(), old(self).recs(), trace),
    {
        if trace {
            self.records.push(r);
        }
        self.trail = Ghost(self.trail@.push(r));
    }

    /// Ancestry of `s` in the table.
    pub fn path_to_top(&self, s: usize) -> (p: Vec<usize>)
        ensures
            p@ == path_of(self.states(), s),
    {
        let n = self.table.len();
        let mut path: Vec<usize> = Vec::new();
        let mut cur = s;
        let mut fuel = n;
        loop
            invariant_except_break
                path@ + chain(self.table@, cur, fuel as nat) == chain(self.table@, s, n as nat),
            invariant
                n == self.table@.len(),
                fuel <= n,
            ensures
                path@ == chain(self.table@, s, n as nat),
            decreases fuel,
        {
            if fuel == 0 || cur >= n {
                assert(path@ + chain(self.table@, cur, fuel as nat) =~= path@);
                break;
            }
            let ghost f = fuel;
            let ghost before = path@;
            path.push(cur);
            match self.table[cur].superstate {
                Some(p) => {
                    assert(path@ + chain(self.table@, p, (f - 1) as nat) =~= before + chain(self.table@, cur, f as nat));
                    cur = p;
                    fuel = fuel - 1;
                },
                None => {
                    assert(path@ =~= before + chain(self.table@, cur, f as nat));
                    break;
                },
            }
        }
        path
    }

    /// Whether the current state is `state` or one of its substates.
    pub fn is_in(&self, state: usize) -> (b: bool)
        ensures
            b == path_of(self.states(), self.current()).contains(state),
    {
        let path = self.path_to_top(self.state);
        let k = position_of(&path, state);
        proof {
            lemma_pos_of(path@, state);
        }
        k < path.len()
    }

    /// Runs the entry actions of `entries` in order, tracing each state.
    fn run_entries(&mut self, entries: &Vec<usize>, trace: bool)
        requires
            old(self).wf(),
        ensures
            final(self).wf(),
            final(self).states() == old(self).states(),
            final(self).current() == old(self).current(),
            final(self).history_map() == old(self).history_map(),
            extends(final(self).recs(), old(self).recs(), trace),
            trace ==> final(self).recs() == old(self).recs() + entry_records(entries@),
            final(self).trail() == old(self).trail() + entry_records(entries@),
            final(self).calls() == old(self).calls() + qm_action_calls(old(self).states(), entry_records(entries@)),
            old(self).calls().is_prefix_of(final(self).calls()),
            forall|i: int| 0 <= i < entries@.len() && entries@[i] < old(self).states().len() && old(self).states()[entries@[i] as int].has_entry
                ==> exists|k: int| old(self).calls().len() <= k < final(self).calls().len() && #[trigger] final(self).calls()[k]
                    == QMCall::Entry(entries@[i]),
    {
        let mut i: usize = 0;
        let ghost base = old(self).calls().len() as int;
        assert(entry_records(entries@.take(0)) =~= Seq::<HsmRecord>::empty());
        assert(self.calls() =~= old(self).calls() + qm_action_calls(self.table@, entry_records(entries@.take(0))));
        assert(old(self).calls().is_prefix_of(self.calls())) by {
            assert(self.calls() =~= self.calls().subrange(0, self.calls().len() as int));
        }
        while i < entries.len()
            invariant
                old(self).calls().is_prefix_of(self.calls()),
                base == old(self).calls().len(),
                forall|j: int| 0 <= j < i && entries@[j] < self.states().len() && self.states()[entries@[j] as int].has_entry
                    ==> exists|k: int| base <= k < self.calls().len() && #[trigger] self.calls()[k] == QMCall::Entry(entries@[j]),
                self.wf(),
                self.states() == old(self).states(),
                self.current() == old(self).current(),
                self.history_map() == old(self).history_map(),
                extends(self.recs(), old(self).recs(), trace),
                i <= entries@.len(),
                trace ==> self.recs() == old(self).recs() + entry_records(entries@.take(i as int)),
                self.trail() == old(self).trail() + entry_records(entries@.take(i as int)),
                self.calls() == old(self).calls() + qm_action_calls(self.table@, entry_records(entries@.take(i as int))),
            decreases entries@.len() - i,
        {
            let s = entries[i];
            let ghost c0 = self.calls();
            proof {
                assert(entry_records(entries@.take(i + 1)) =~= entry_records(entries@.take(i as int)).push(
                    HsmRecord::StateEntry(s),
                ));
                assert(entry_records(entries@.take(i + 1)).drop_last() =~= entry_records(entries@.take(i as int)));
            }
            if s < self.table.len() && self.table[s].has_entry {
                self.sm.entry(s);
                self.calls = Ghost(self.calls@.push(QMCall::Entry(s)));
            }
            proof {
                assert(c0 =~= self.calls().subrange(0, c0.len() as int));
                lemma_prefix_trans(old(self).calls(), c0, self.calls());
                assert forall|j: int| 0 <= j < i + 1 && entries@[j] < self.states().len() && self.states()[entries@[j] as int].has_entry
                    implies exists|k: int| base <= k < self.calls().len() && #[trigger] self.calls()[k] == QMCall::Entry(entries@[j]) by {
                    if j < i {
                        let k = choose|k: int| base <= k < c0.len() && #[trigger] c0[k] == QMCall::Entry(entries@[j]);
                        assert(self.calls()[k] == c0[k]);
                    } else {
                        assert(self.calls()[c0.len() as int] == QMCall::Entry(entries@[j]));
                    }
                }
            }
            let ghost before = self.recs();
            self.note(trace, HsmRecord::StateEntry(s));
            proof {
                lemma_extends_trans(self.recs(), before, old(self).recs(), trace);
                assert(entry_records(entries@.take(i + 1)) =~= entry_records(entries@.take(i as int)).push(
                    HsmRecord::StateEntry(s),
                ));
                assert(self.trail() =~= old(self).trail() + entry_records(entries@.take(i + 1)));
                if trace {
                    assert(self.recs() =~= old(self).recs() + entry_records(entries@.take(i + 1)));
                }
            }
            i += 1;
        }
        proof {
            assert(entries@.take(entries@.len() as int) =~= entries@);
        }
    }

    /// Follows initial transitions from the current state (at most as many
    /// as the table has states), entering the states on the way.
    fn handle_nested_init(&mut self, trace: bool)
        requires
            old(self).wf(),
        ensures
            final(self).wf(),
            final(self).states() == old(self).states(),
            final(self).history_map() == old(self).history_map(),
            extends(final(self).recs(), old(self).recs(), trace),
            old(self).trail().is_prefix_of(final(self).trail()),
            old(self).calls().is_prefix_of(final(self).calls()),
            !old(self).states()[old(self).current() as int].has_init ==> final(self).current() == old(self).current()
                && final(self).calls() == old(self).calls(),
            old(self).states()[old(self).current() as int].has_init ==> final(self).calls().len() > old(self).calls().len()
                && (final(self).calls()[old(self).calls().len() as int] matches QMCall::Init(s0, _) && s0 == old(self).current()),
            final(self).current() == old(self).current() || exists|k: int|
                old(self).calls().len() <= k < final(self).calls().len() && (#[trigger] final(self).calls()[k] matches QMCall::Init(
                    _,
                    Some(t),
                ) && t == final(self).current()),
            exists|targets: Seq<usize>, tail: Seq<QMCall>|
                #![trigger qm_init_calls(old(self).states(), old(self).current(), targets), tail.len()]
            {
                &&& final(self).calls() == old(self).calls() + qm_init_calls(old(self).states(), old(self).current(), targets) + tail
                &&& final(self).current() == qm_init_at(old(self).current(), targets, targets.len() as int)
                &&& forall|i: int| 0 <= i < targets.len() ==> #[trigger] targets[i] < old(self).states().len()
                &&& tail.len() <= 1
                &&& tail.len() == 1 ==> (tail[0] matches QMCall::Init(s, a) && s == final(self).current() && (a is None
                    || a->Some_0 >= old(self).states().len()))
            },
    {
        let n = self.table.len();
        let mut k: usize = 0;
        let ghost mut targets: Seq<usize> = Seq::empty();
        let ghost mut tail: Seq<QMCall> = Seq::empty();
        assert(self.calls() =~= old(self).calls() + qm_init_calls(old(self).states(), old(self).current(), targets) + tail);
        let ghost base = old(self).calls().len() as int;
        assert(old(self).calls().is_prefix_of(self.calls())) by {
            assert(self.calls() =~= self.calls().subrange(0, self.calls().len() as int));
        }
        assert(old(self).trail().is_prefix_of(self.trail())) by {
            assert(self.trail() =~= self.trail().subrange(0, self.trail().len() as int));
        }
        while k < n
            invariant_except_break
                tail.len() == 0,
                k == 0 ==> self.calls() == old(self).calls() && self.current() == old(self).current(),
                k > 0 ==> self.calls().len() > base && (self.calls()[base] matches QMCall::Init(s0, _) && s0 == old(self).current())
                    && old(self).states()[old(self).current() as int].has_init,
            invariant
                self.calls() == old(self).calls() + qm_init_calls(old(self).states(), old(self).current(), targets) + tail,
                self.current() == qm_init_at(old(self).current(), targets, targets.len() as int),
                forall|i: int| 0 <= i < targets.len() ==> #[trigger] targets[i] < old(self).states().len(),
                tail.len() <= 1,
                tail.len() == 1 ==> (tail[0] matches QMCall::Init(s, a) && s == self.current() && (a is None
                    || a->Some_0 >= old(self).states().len())),
                self.wf(),
                n == self.table@.len(),
                self.states() == old(self).states(),
                self.history_map() == old(self).history_map(),
                extends(self.recs(), old(self).recs(), trace),
                base == old(self).calls().len(),
                old(self).calls().is_prefix_of(self.calls()),
                old(self).trail().is_prefix_of(self.trail()),
                self.current() == old(self).current() || exists|j: int|
                    base <= j < self.calls().len() && (#[trigger] self.calls()[j] matches QMCall::Init(_, Some(t)) && t == self.current()),
            ensures
                self.calls() == old(self).calls() + qm_init_calls(old(self).states(), old(self).current(), targets) + tail,
                self.current() == qm_init_at(old(self).current(), targets, targets.len() as int),
                forall|i: int| 0 <= i < targets.len() ==> #[trigger] targets[i] < old(self).states().len(),
                tail.len() <= 1,
                tail.len() == 1 ==> (tail[0] matches QMCall::Init(s, a) && s == self.current() && (a is None
                    || a->Some_0 >= old(self).states().len())),
                old(self).trail().is_prefix_of(self.trail()),
                self.wf(),
                self.states() == old(self).states(),
                self.history_map() == old(self).history_map(),
                extends(self.recs(), old(self).recs(), trace),
                old(self).calls().is_prefix_of(self.calls()),
                !old(self).states()[old(self).current() as int].has_init ==> self.current() == old(self).current()
                    && self.calls() == old(self).calls(),
                old(self).states()[old(self).current() as int].has_init ==> self.calls().len() > base
                    && (self.calls()[base] matches QMCall::Init(s0, _) && s0 == old(self).current()),
                self.current() == old(self).current() || exists|j: int|
                    base <= j < self.calls().len() && (#[trigger] self.calls()[j] matches QMCall::Init(_, Some(t)) && t == self.current()),
            decreases n - k,
        {
            if !self.table[self.state].has_init {
                break;
            }
            let ghost c0 = self.calls();
            let answer = self.sm.init(self.state);
            self.calls = Ghost(self.calls@.push(QMCall::Init(self.state, answer)));
            proof {
                assert(c0 =~= self.calls().subrange(0, c0.len() as int));
                lemma_prefix_trans(old(self).calls(), c0, self.calls());
                if k > 0 {
                    assert(self.calls()[base] == c0[base]);
                }
                if self.current() != old(self).current() {
                    let j = choose|j: int| base <= j < c0.len() && (#[trigger] c0[j] matches QMCall::Init(_, Some(t)) && t == self.current());
                    assert(self.calls()[j] == c0[j]);
                }
            }
            let next = match answer {
                Some(t) => t,
                None => {
                    proof {
                        tail = seq![QMCall::Init(self.state, answer)];
                        assert(self.calls() =~= old(self).calls() + qm_init_calls(old(self).states(), old(self).current(), targets) + tail);
                    }
                    break;
                },
            };
            if next >= n {
                proof {
                    tail = seq![QMCall::Init(self.state, answer)];
                    assert(self.calls() =~= old(self).calls() + qm_init_calls(old(self).states(), old(self).current(), targets) + tail);
                }
                break;
            }
            let ghost kq = c0.len() as int;
            let next_path = self.path_to_top(next);
            let idx = position_of(&next_path, self.state);
            proof {
                lemma_pos_of(next_path@, self.state);
            }
            let mut entries: Vec<usize> = Vec::new();
            let mut j = idx;
            assert(next_path@.subrange(idx as int, idx as int).reverse() =~= entries@);
            while j > 0
                invariant
                    j <= idx <= next_path@.len(),
                    entries@ == next_path@.subrange(j as int, idx as int).reverse(),
                decreases j,
            {
                j -= 1;
                entries.push(next_path[j]);
                proof {
                    let lhs = next_path@.subrange(j as int, idx as int).reverse();
                    assert(lhs.len() == entries@.len());
                    assert forall|m: int| 0 <= m < lhs.len() implies lhs[m] == entries@[m] by {
                        if m < lhs.len() - 1 {
                            assert(entries@[m] == next_path@.subrange(j + 1, idx as int).reverse()[m]);
                        }
                    }
                    assert(lhs =~= entries@);
                }
            }
            assert(next_path@.subrange(0, idx as int) =~= next_path@.take(idx as int));
            assert(entries@ == qm_entries(path_of(old(self).states(), next), Some(self.state)));
            let ghost before = self.recs();
            let ghost c1 = self.calls();
            let ghost t1 = self.trail();
            self.run_entries(&entries, trace);
            proof {
                lemma_extends_trans(self.recs(), before, old(self).recs(), trace);
                lemma_prefix_trans(old(self).calls(), c1, self.calls());
                assert(t1 =~= self.trail().subrange(0, t1.len() as int));
                lemma_prefix_trans(old(self).trail(), t1, self.trail());
            }
            let ghost before = self.recs();
            let ghost t2 = self.trail();
            self.note(trace, HsmRecord::StateInit(self.state));
            proof {
                lemma_extends_trans(self.recs(), before, old(self).recs(), trace);
                assert(t2 =~= self.trail().subrange(0, t2.len() as int));
                lemma_prefix_trans(old(self).trail(), t2, self.trail());
            }
            self.state = next;
            proof {
                let t2 = targets.push(next);
                assert(t2.drop_last() =~= targets);
                assert(qm_init_at(old(self).current(), t2, targets.len() as int) == qm_init_at(old(self).current(), targets, targets.len() as int));
                assert(self.calls() =~= old(self).calls() + qm_init_calls(old(self).states(), old(self).current(), t2));
                assert forall|i: int| 0 <= i < t2.len() implies #[trigger] t2[i] < old(self).states().len() by {
                    if i < targets.len() {
                        assert(t2[i] == targets[i]);
                    }
                }
                targets = t2;
                assert(self.calls()[kq] == c1[kq]);
                assert(self.calls()[base] == c1[base]);
            }
            k += 1;
        }
    }

    /// Enters the initial state's ancestry top-down, then follows initial
    /// transitions.
    pub fn init(&mut self)
        requires
            old(self).wf(),
        ensures
            final(self).wf(),
            final(self).states() == old(self).states(),
            final(self).history_map() == old(self).history_map(),
            final(self).recs() == old(self).recs(),
            old(self).inited(*final(self)),
    {
        self.init_traced(false)
    }

    /// [`init`](Self::init), tracing each entry, the initial transition and
    /// each nested initial transition when `trace` is set.
    pub fn init_traced(&mut self, trace: bool)
        requires
            old(self).wf(),
        ensures
            final(self).wf(),
            final(self).states() == old(self).states(),
            final(self).history_map() == old(self).history_map(),
            extends(final(self).recs(), old(self).recs(), trace),
            old(self).inited(*final(self)),
    {
        let target = self.temp;
        let path = self.path_to_top(target);
        let mut entries: Vec<usize> = Vec::new();
        let mut j = path.len();
        while j > 0
            invariant
                j <= path@.len(),
                entries@.len() == path@.len() - j,
                forall|m: int| 0 <= m < entries@.len() ==> #[trigger] entries@[m] == path@[path@.len() - 1 - m],
            decreases j,
        {
            j -= 1;
            entries.push(path[j]);
        }
        self.run_entries(&entries, trace);
        let ghost c1 = self.calls();
        proof {
            assert forall|i: int| 0 <= i < path@.len() && path@[i] < old(self).states().len() && old(self).states()[path@[i] as int].has_entry
                implies exists|k: int| old(self).calls().len() <= k < c1.len() && #[trigger] c1[k] == QMCall::Entry(path@[i]) by {
                let m = path@.len() - 1 - i;
                assert(entries@[m] == path@[i]);
            }
        }
        self.state = target;
        let ghost before = self.recs();
        self.note(trace, HsmRecord::InitTran(target));
        proof { lemma_extends_trans(self.recs(), before, old(self).recs(), trace); }
        let ghost before = self.recs();
        self.handle_nested_init(trace);
        proof {
            lemma_extends_trans(self.recs(), before, old(self).recs(), trace);
            lemma_prefix_trans(old(self).calls(), c1, self.calls());
            assert forall|i: int| 0 <= i < path@.len() && path@[i] < old(self).states().len() && old(self).states()[path@[i] as int].has_entry
                implies exists|k: int| old(self).calls().len() <= k < self.calls().len() && #[trigger] self.calls()[k] == QMCall::Entry(path@[i]) by {
                let k = choose|k: int| old(self).calls().len() <= k < c1.len() && #[trigger] c1[k] == QMCall::Entry(path@[i]);
                assert(self.calls()[k] == c1[k]);
            }
            if self.current() != target {
                let k = choose|k: int| c1.len() <= k < self.calls().len() && (#[trigger] self.calls()[k] matches QMCall::Init(_, Some(t)) && t == self.current());
                assert(old(self).calls().len() <= k);
            }
            assert(entries@ =~= path@.reverse());
            let (targets, tail) = choose|targets: Seq<usize>, tail: Seq<QMCall>| {
                &&& self.calls() == c1 + qm_init_calls(old(self).states(), target, targets) + tail
                &&& self.current() == qm_init_at(target, targets, targets.len() as int)
                &&& forall|i: int| 0 <= i < targets.len() ==> #[trigger] targets[i] < old(self).states().len()
                &&& tail.len() <= 1
                &&& tail.len() == 1 ==> (tail[0] matches QMCall::Init(s, a) && s == self.current() && (a is None
                    || a->Some_0 >= old(self).states().len()))
            };
            assert(self.calls() =~= old(self).calls() + qm_action_calls(old(self).states(), entry_records(path@.reverse()))
                + qm_init_calls(old(self).states(), target, targets) + tail);
        }
    }

    /// Takes the transition from `source` to `target`: exits up to the
    /// common ancestor (remembering each exited state as its parent's last
    /// active child), enters down to the target, then follows initial
    /// transitions.
    fn execute_tran(&mut self, source: usize, target: usize, trace: bool)
        requires
            old(self).wf(),
            source < old(self).states().len(),
            target < old(self).states().len(),
        ensures
            final(self).wf(),
            final(self).states() == old(self).states(),
            extends(final(self).recs(), old(self).recs(), trace),
            trace ==> ({
                let tr = qm_tran_records(old(self).states(), old(self).current(), source, target);
                &&& final(self).recs().len() >= old(self).recs().len() + tr.len()
                &&& final(self).recs().subrange(
                    old(self).recs().len() as int,
                    (old(self).recs().len() + tr.len()) as int,
                ) == tr
            }),
            old(self).calls().is_prefix_of(final(self).calls()),
            ({
                let tc = qm_action_calls(old(self).states(), qm_tran_records(old(self).states(), old(self).current(), source, target));
                &&& final(self).calls().len() >= old(self).calls().len() + tc.len()
                &&& final(self).calls().subrange(
                    old(self).calls().len() as int,
                    (old(self).calls().len() + tc.len()) as int,
                ) == tc
            }),
            ({
                let tr = qm_tran_records(old(self).states(), old(self).current(), source, target);
                &&& final(self).trail().len() >= old(self).trail().len() + tr.len()
                &&& final(self).trail().subrange(
                    old(self).trail().len() as int,
                    (old(self).trail().len() + tr.len()) as int,
                ) == tr
            }),
            old(self).trail().is_prefix_of(final(self).trail()),
            final(self).history_map() == qm_exit_history(
                old(self).states(),
                old(self).history_map(),
                qm_exits(path_of(old(self).states(), old(self).current()), qm_tran_lca(old(self).states(), source, target)),
            ),
            final(self).current() == target || exists|k: int|
                old(self).calls().len() <= k < final(self).calls().len() && (#[trigger] final(self).calls()[k] matches QMCall::Init(
                    _,
                    Some(t),
                ) && t == final(self).current()),
            !old(self).states()[target as int].has_init ==> final(self).current() == target,
    {
        let current = self.state;
        let target_path = self.path_to_top(target);
        let lca_source = if source == target {
            match self.table[source].superstate {
                Some(p) => p,
                None => source,
            }
        } else {
            source
        };
        let source_path = self.path_to_top(lca_source);
        let current_path = self.path_to_top(current);
        let plan = plan_qm_transition(&current_path, &source_path, &target_path);
        proof {
            lemma_chain_links(self.table@, current, self.table@.len());
            match plan.lca {
                Some(l) => {
                    lemma_pos_of(current_path@, l);
                },
                None => {},
            }
        }
        let mut i: usize = 0;
        assert(exit_records(plan.exits@.take(0)) =~= Seq::<HsmRecord>::empty());
        assert(self.calls() =~= old(self).calls() + qm_action_calls(self.table@, exit_records(plan.exits@.take(0))));
        assert(plan.exits@.take(0) =~= Seq::<usize>::empty());
        while i < plan.exits.len()
            invariant
                self.wf(),
                self.states() == old(self).states(),
                plan.exits@ == qm_exits(current_path@, plan.lca),
                current_path@ == path_of(self.table@, current),
                forall|j: int| 0 <= j < current_path@.len() ==> (#[trigger] current_path@[j]) < self.table@.len(),
                plan.exits@.len() <= current_path@.len(),
                forall|j: int| 0 <= j < plan.exits@.len() ==> plan.exits@[j] == current_path@[j],
                extends(self.recs(), old(self).recs(), trace),
                old(self).calls().is_prefix_of(self.calls()),
                i <= plan.exits@.len(),
                trace ==> self.recs() == old(self).recs() + exit_records(plan.exits@.take(i as int)),
                self.trail() == old(self).trail() + exit_records(plan.exits@.take(i as int)),
                self.calls() == old(self).calls() + qm_action_calls(self.table@, exit_records(plan.exits@.take(i as int))),
                self.history_map() == qm_exit_history(self.table@, old(self).history_map(), plan.exits@.take(i as int)),
            decreases plan.exits@.len() - i,
        {
            let s = plan.exits[i];
            proof {
                assert(plan.exits@.take(i + 1).drop_last() =~= plan.exits@.take(i as int));
                assert(exit_records(plan.exits@.take(i + 1)) =~= exit_records(plan.exits@.take(i as int)).push(
                    HsmRecord::StateExit(s),
                ));
                assert(exit_records(plan.exits@.take(i + 1)).drop_last() =~= exit_records(plan.exits@.take(i as int)));
            }
            assert(plan.exits@[i as int] == current_path@[i as int]);
            assert(current_path@[i as int] < self.table@.len());
            match self.table[s].superstate {
                Some(parent) => self.history.record(parent, s),
                None => {},
            }
            let ghost c0 = self.calls();
            if self.table[s].has_exit {
                self.sm.exit(s);
                self.calls = Ghost(self.calls@.push(QMCall::Exit(s)));
            }
            proof {
                assert(c0 =~= self.calls().subrange(0, c0.len() as int));
                lemma_prefix_trans(old(self).calls(), c0, self.calls());
            }
            let ghost before = self.recs();
            self.note(trace, HsmRecord::StateExit(s));
            proof {
                lemma_extends_trans(self.recs(), before, old(self).recs(), trace);
                assert(exit_records(plan.exits@.take(i + 1)) =~= exit_records(plan.exits@.take(i as int)).push(
                    HsmRecord::StateExit(s),
                ));
                assert(self.trail() =~= old(self).trail() + exit_records(plan.exits@.take(i + 1)));
                if trace {
                    assert(self.recs() =~= old(self).recs() + exit_records(plan.exits@.take(i + 1)));
                }
            }
            i += 1;
        }
        proof {
            assert(plan.exits@.take(plan.exits@.len() as int) =~= plan.exits@);
        }
        let ghost before = self.recs();
        let ghost c1 = self.calls();
        self.run_entries(&plan.entries, trace);
        proof {
            lemma_extends_trans(self.recs(), before, old(self).recs(), trace);
            lemma_prefix_trans(old(self).calls(), c1, self.calls());
        }
        let ghost planned = self.recs();
        let ghost tplanned = self.trail();
        self.state = target;
        let ghost before = self.recs();
        let ghost c2 = self.calls();
        self.handle_nested_init(trace);
        proof {
            lemma_prefix_trans(old(self).calls(), c2, self.calls());
            let tr = qm_tran_records(old(self).states(), old(self).current(), source, target);
            assert(tr == exit_records(plan.exits@) + entry_records(plan.entries@));
            lemma_action_calls_add(old(self).states(), exit_records(plan.exits@), entry_records(plan.entries@));
            let tc = qm_action_calls(old(self).states(), tr);
            assert(c2 =~= old(self).calls() + tc);
            assert(self.calls().subrange(old(self).calls().len() as int, (old(self).calls().len() + tc.len()) as int) =~= tc) by {
                assert forall|m: int| 0 <= m < tc.len() implies self.calls()[old(self).calls().len() + m] == tc[m] by {
                    assert(self.calls()[old(self).calls().len() + m] == c2[old(self).calls().len() + m]);
                }
            }
            assert(tplanned == old(self).trail() + tr);
            assert(tplanned.is_prefix_of(self.trail()));
            assert(self.trail().subrange(old(self).trail().len() as int, (old(self).trail().len() + tr.len()) as int) =~= tr) by {
                assert forall|i: int| 0 <= i < tr.len() implies self.trail()[old(self).trail().len() + i] == tr[i] by {
                    assert(self.trail()[old(self).trail().len() + i] == tplanned[old(self).trail().len() + i]);
                }
            }
            assert(old(self).trail().is_prefix_of(tplanned)) by {
                assert(old(self).trail() =~= tplanned.subrange(0, old(self).trail().len() as int));
            }
            lemma_prefix_trans(old(self).trail(), tplanned, self.trail());
            if self.current() != target {
                let k = choose|k: int| c2.len() <= k < self.calls().len() && (#[trigger] self.calls()[k] matches QMCall::Init(_, Some(t)) && t == self.current());
                assert(old(self).calls().len() <= k);
            }
            lemma_extends_trans(self.recs(), before, old(self).recs(), trace);
            if trace {
                let tr = qm_tran_records(old(self).states(), old(self).current(), source, target);
                assert(tr == exit_records(plan.exits@) + entry_records(plan.entries@));
                assert(planned == old(self).recs() + tr);
                assert(self.recs().subrange(old(self).recs().len() as int, (old(self).recs().len() + tr.len()) as int) =~= tr);
            }
        }
    }

    /// Dispatches `event`: handlers are consulted from the current state up
    /// the superstates they name (at most as many as the table has states);
    /// a transition to a state outside the table is ignored.
    pub fn dispatch(&mut self, event: &DynEvent)
        requires
            old(self).wf(),
        ensures
            final(self).wf(),
            final(self).states() == old(self).states(),
            final(self).recs() == old(self).recs(),
            old(self).dispatched(*final(self), *event),
    {
        self.dispatch_traced(event, false)
    }

    /// [`dispatch`](Self::dispatch), tracing the dispatch, its outcome and
    /// every exit, entry and nested initial transition when `trace` is set;
    /// the first record is the dispatch in the current state.
    #[verifier::rlimit(40)]
    pub fn dispatch_traced(&mut self, event: &DynEvent, trace: bool)
        requires
            old(self).wf(),
        ensures
            final(self).wf(),
            final(self).states() == old(self).states(),
            extends(final(self).recs(), old(self).recs(), trace),
            trace ==> final(self).recs().len() > old(self).recs().len()
                && final(self).recs()[old(self).recs().len() as int] == HsmRecord::Dispatch(event.header.signal, old(self).current()),
            trace && final(self).recs().len() > old(self).recs().len() + 1 ==> ({
                let d = old(self).recs().len() as int + 1;
                &&& final(self).recs()[d] matches HsmRecord::Tran(_, src, tgt) ==> ({
                    let tr = qm_tran_records(old(self).states(), old(self).current(), src, tgt);
                    final(self).recs().len() >= d + 1 + tr.len() && final(self).recs().subrange(d + 1, d + 1 + tr.len() as int) == tr
                })
                &&& final(self).recs()[d] matches HsmRecord::TranHist(_, src, tgt) ==> ({
                    let tr = qm_tran_records(old(self).states(), old(self).current(), src, tgt);
                    final(self).recs().len() >= d + 1 + tr.len() && final(self).recs().subrange(d + 1, d + 1 + tr.len() as int) == tr
                })
            }),
            old(self).dispatched(*final(self), *event),
            final(self).trail()[old(self).trail().len() as int] == HsmRecord::Dispatch(event.header.signal, old(self).current()),
            exists|kr: int| #![trigger final(self).calls()[kr]]
                {
                    &&& old(self).calls().len() <= kr < final(self).calls().len()
                    &&& forall|j: int| old(self).calls().len() <= j <= kr ==> (#[trigger] final(self).calls()[j] matches QMCall::Handle(
                        _,
                        g,
                        _,
                    ) && g == *event)
                    &&& forall|j: int| old(self).calls().len() <= j < kr ==> (#[trigger] final(self).calls()[j] matches QMCall::Handle(
                        _,
                        _,
                        QMsmResult::Super(x),
                    ) && (final(self).calls()[j + 1] matches QMCall::Handle(y, _, _) && y == x))
                    &&& final(self).calls()[kr] matches QMCall::Handle(src, _, a) && old(self).settled(
                        *final(self),
                        event.header.signal,
                        src,
                        a,
                        kr + 1,
                    )
                },
    {
        let sig = event.header.signal;
        let cur = self.state;
        self.note(trace, HsmRecord::Dispatch(sig, cur));
        let ghost first = self.recs();
        let n = self.table.len();
        let mut s = self.state;
        let mut result = QMsmResult::Unhandled;
        let mut k: usize = 0;
        let ghost base = old(self).calls().len() as int;
        assert(old(self).calls().is_prefix_of(self.calls())) by {
            assert(self.calls() =~= self.calls().subrange(0, self.calls().len() as int));
        }
        let ghost tb = old(self).trail().len() + 1;
        assert(self.trail() == old(self).trail().push(HsmRecord::Dispatch(sig, cur)));
        while k < n
            invariant_except_break
                result == QMsmResult::Unhandled,
                self.calls().len() == base + k,
                self.calls().len() > base ==> (self.calls().last() matches QMCall::Handle(_, _, QMsmResult::Super(x)) && x == s),
            invariant
                self.trail() == old(self).trail().push(HsmRecord::Dispatch(sig, cur)),
                forall|j: int| base <= j < self.calls().len() ==> (#[trigger] self.calls()[j] matches QMCall::Handle(_, g, _)
                    && g == *event),
                forall|j: int| base <= j < self.calls().len() - 1 ==> (#[trigger] self.calls()[j] matches QMCall::Handle(
                    _,
                    _,
                    QMsmResult::Super(x),
                ) && (self.calls()[j + 1] matches QMCall::Handle(y, _, _) && y == x)),
                self.wf(),
                self.states() == old(self).states(),
                self.current() == old(self).current(),
                self.history_map() == old(self).history_map(),
                self.recs() == first,
                n == self.table@.len(),
                s < n,
                base == old(self).calls().len(),
                old(self).calls().is_prefix_of(self.calls()),
                self.calls().len() >= base + k,
                k == 0 ==> s == old(self).current(),
                self.calls().len() > base ==> (self.calls()[base] matches QMCall::Handle(s0, g, _) && s0 == old(self).current()
                    && g == *event),
            ensures
                self.wf(),
                self.states() == old(self).states(),
                self.current() == old(self).current(),
                self.history_map() == old(self).history_map(),
                self.recs() == first,
                s < n,
                old(self).calls().is_prefix_of(self.calls()),
                self.calls().len() > base,
                self.calls()[base] matches QMCall::Handle(s0, g, _) && s0 == old(self).current() && g == *event,
                (result is Tran || result is TranHist) ==> (self.calls().last() matches QMCall::Handle(_, _, a) && a == result),
                self.trail() == old(self).trail().push(HsmRecord::Dispatch(sig, cur)),
                forall|j: int| base <= j < self.calls().len() ==> (#[trigger] self.calls()[j] matches QMCall::Handle(_, g, _)
                    && g == *event),
                forall|j: int| base <= j < self.calls().len() - 1 ==> (#[trigger] self.calls()[j] matches QMCall::Handle(
                    _,
                    _,
                    QMsmResult::Super(x),
                ) && (self.calls()[j + 1] matches QMCall::Handle(y, _, _) && y == x)),
                self.calls().last() matches QMCall::Handle(src, _, a) && (a is Super ==> result == QMsmResult::Unhandled)
                    && (!(a is Super) ==> src == s && result == a),
            decreases n - k,
        {
            let r = self.sm.handle(s, event);
            let ghost c0 = self.calls();
            self.calls = Ghost(self.calls@.push(QMCall::Handle(s, *event, r)));
            proof {
                assert(c0 =~= self.calls().subrange(0, c0.len() as int));
                lemma_prefix_trans(old(self).calls(), c0, self.calls());
                if c0.len() > base {
                    assert(self.calls()[base] == c0[base]);
                    assert(c0.last() == c0[c0.len() - 1]);
                }
                assert forall|j: int| base <= j < self.calls().len() implies (#[trigger] self.calls()[j] matches QMCall::Handle(_, g, _)
                    && g == *event) by {
                    if j < c0.len() {
                        assert(self.calls()[j] == c0[j]);
                    }
                }
                assert forall|j: int| base <= j < self.calls().len() - 1 implies (#[trigger] self.calls()[j] matches QMCall::Handle(
                    _,
                    _,
                    QMsmResult::Super(x),
                ) && (self.calls()[j + 1] matches QMCall::Handle(y, _, _) && y == x)) by {
                    assert(self.calls()[j] == c0[j]);
                    if j + 1 < c0.len() {
                        assert(self.calls()[j + 1] == c0[j + 1]);
                    }
                }
                assert(self.calls().last() == QMCall::Handle(s, *event, r));
            }
            match r {
                QMsmResult::Super(sup) => {
                    if sup >= n {
                        result = QMsmResult::Unhandled;
                        break;
                    }
                    s = sup;
                },
                _ => {
                    result = r;
                    break;
                },
            }
            k += 1;
        }
        let ghost before = self.recs();
        let ghost kr = self.calls().len() - 1;
        let ghost c1 = self.calls();
        let ghost t0 = self.trail();
        let ghost hist0 = self.history_map();
        proof {
            assert(c1[kr] == c1.last());
        }
        match result {
            QMsmResult::Tran(target) => {
                if target < n {
                    self.note(trace, HsmRecord::Tran(sig, s, target));
                    proof { lemma_extends_trans(self.recs(), before, first, trace); }
                    let ghost mid = self.recs();
                    let ghost tm = self.trail();
                    let ghost cm = self.calls();
                    self.execute_tran(s, target, trace);
                    proof {
                        lemma_extends_trans(self.recs(), mid, first, trace);
                        lemma_prefix_trans(old(self).calls(), c1, self.calls());
                        assert(self.calls()[kr] == c1[kr]);
                        assert(self.calls()[base] == c1[base]);
                        lemma_settled_tran(t0, tm, self.trail(), HsmRecord::Tran(sig, s, target),
                            qm_tran_records(old(self).states(), old(self).current(), s, target));
                    }
                } else {
                    self.note(trace, HsmRecord::Ignored(sig, s));
                    proof { assert(self.trail().subrange(0, t0.len() as int) =~= t0); }
                }
            },
            QMsmResult::TranHist(parent) => {
                let target = self.history.target(parent);
                if target < n {
                    self.note(trace, HsmRecord::TranHist(sig, s, target));
                    proof { lemma_extends_trans(self.recs(), before, first, trace); }
                    let ghost mid = self.recs();
                    let ghost tm = self.trail();
                    self.execute_tran(s, target, trace);
                    proof {
                        lemma_extends_trans(self.recs(), mid, first, trace);
                        lemma_prefix_trans(old(self).calls(), c1, self.calls());
                        assert(self.calls()[kr] == c1[kr]);
                        assert(self.calls()[base] == c1[base]);
                        lemma_settled_tran(t0, tm, self.trail(), HsmRecord::TranHist(sig, s, target),
                            qm_tran_records(old(self).states(), old(self).current(), s, target));
                    }
                } else {
                    self.note(trace, HsmRecord::Ignored(sig, s));
                    proof { assert(self.trail().subrange(0, t0.len() as int) =~= t0); }
                }
            },
            QMsmResult::Handled => {
                self.note(trace, HsmRecord::InternTran(sig, s));
                proof { assert(self.trail().subrange(0, t0.len() as int) =~= t0); }
            },
            _ => {
                self.note(trace, HsmRecord::Ignored(sig, s));
                proof { assert(self.trail().subrange(0, t0.len() as int) =~= t0); }
            },
        }
        proof {
            lemma_extends_trans(self.recs(), first, old(self).recs(), trace);
            if trace {
                assert(self.recs()[old(self).recs().len() as int] == first[old(self).recs().len() as int]);
            }
            assert(t0.is_prefix_of(self.trail()));
            assert(self.trail()[old(self).trail().len() as int] == t0[old(self).trail().len() as int]);
            lemma_prefix_trans(old(self).calls(), c1, self.calls());
            assert(self.calls()[kr] == c1[kr]);
            assert forall|j: int| old(self).calls().len() <= j <= kr implies (#[trigger] self.calls()[j] matches QMCall::Handle(
                _,
                g,
                _,
            ) && g == *event) by {
                assert(self.calls()[j] == c1[j]);
            }
            assert forall|j: int| old(self).calls().len() <= j < kr implies (#[trigger] self.calls()[j] matches QMCall::Handle(
                _,
                _,
                QMsmResult::Super(x),
            ) && (self.calls()[j + 1] matches QMCall::Handle(y, _, _) && y == x)) by {
                assert(self.calls()[j] == c1[j]);
                assert(self.calls()[j + 1] == c1[j + 1]);
            }
            assert(hist0 == old(self).history_map());
        }
    }
}


impl<S: QMActions> QMsm<S> {
    /// Checks well-formedness (it holds of every machine built by
    /// [`QMsm::new`] and kept by its operations).
    pub fn check_wf(&self) -> (b: bool)
        ensures
            b == self.wf(),
    {
        self.state < self.table.len() && self.temp < self.table.len() && self.history.is_wf()
    }
}

impl<S: QMActions> QAsm for QMsm<S> {
    fn init(&mut self)
        ensures
            old(self).wf() ==> old(self).inited(*final(self)),
            !old(self).wf() ==> *final(self) == *old(self),
    {
        if self.check_wf() {
            QMsm::init(self);
        }
    }

    fn dispatch(&mut self, event: &DynEvent)
        ensures
            old(self).wf() ==> old(self).dispatched(*final(self), *event),
            !old(self).wf() ==> *final(self) == *old(self),
    {
        if self.check_wf() {
            QMsm::dispatch(self, event);
        }
    }
}

impl<S: QMActions> ActiveBehavior for QMsm<S> {
    fn on_start(&mut self, ctx: &mut ActiveContext)
        ensures
            old(self).start_spec(*old(ctx), *final(self), *final(ctx)),
    {
        if self.check_wf() {
            QMsm::init(self);
        }
    }

    /// What starting does, relating the object and its context before and after.
    open spec fn start_spec(self, ctx: ActiveContext, after: Self, ctx_after: ActiveContext) -> bool {
        &&& self.wf() ==> self.inited(after)
        &&& !self.wf() ==> after == self
        &&& ctx_after == ctx
    }

    fn on_event(&mut self, ctx: &mut ActiveContext, event: DynEvent)
        ensures
            old(self).event_spec(*old(ctx), event, *final(self), *final(ctx)),
    {
        if self.check_wf() {
            QMsm::dispatch(self, &event);
        }
    }

    /// What handling `event` does, relating the object and its context before and after.
    open spec fn event_spec(self, ctx: ActiveContext, event: DynEvent, after: Self, ctx_after: ActiveContext) -> bool {
        &&& self.wf() ==> self.dispatched(after, event)
        &&& !self.wf() ==> after == self
        &&& ctx_after == ctx
    }
}

} // verus!
