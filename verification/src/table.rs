//! The mathematical model of a table-driven deterministic automaton, how it
//! runs, and how it arises from a deterministic automaton in sparse form.

use vstd::prelude::*;
use crate::model::{all_bytes, is_rank, lemma_all_bytes, NfaModel, StateModel};
use crate::ordset::ascending;
use crate::subsets::{dead, deterministic, lemma_dead, lemma_ends_single, lemma_step_single};
use crate::{START, STUCK};

verus! {

/// One state: the next state for each of the 256 bytes, and the numbers of
/// the patterns that end here.
pub struct DfaStateModel {
    pub transitions: Seq<usize>,
    pub ends: Seq<usize>,
}

/// A table-driven automaton: its states, for each state whether it is
/// accepting, and the dictionary.
pub struct DfaModel {
    pub states: Seq<DfaStateModel>,
    pub finals: Seq<bool>,
    pub dict: Seq<Seq<u8>>,
}

impl DfaModel {
    /// Whether every entry of every table is the number of a state.
    pub open spec fn in_range(self) -> bool {
        forall|q: int, k: int|
            0 <= q < self.states.len() && 0 <= k < self.states[q].transitions.len()
                ==> #[trigger] self.states[q].transitions[k] < self.states.len()
    }

    /// The automaton as one that happens to lead to one state on every
    /// byte.
    pub open spec fn as_nfa(self) -> NfaModel {
        NfaModel {
            states: Seq::new(
                self.states.len(),
                |q: int|
                    StateModel {
                        targets: Seq::new(256, |b: int| set![self.states[q].transitions[b]]),
                        ends: self.states[q].ends,
                    },
            ),
            alphabet: all_bytes(),
            dict: self.dict,
        }
    }

    /// Well-formedness: every table has 256 entries, the automaton is
    /// well-formed as a nondeterministic one (so every entry is a state, the
    /// sink leads to itself and ends nothing, and pattern numbers ascend),
    /// and the accepting states are those that end a pattern.
    pub open spec fn wf(self) -> bool {
        &&& forall|q: int|
            0 <= q < self.states.len() ==> (#[trigger] self.states[q]).transitions.len() == 256
        &&& self.as_nfa().wf()
        &&& self.finals.len() == self.states.len()
        &&& forall|q: int|
            0 <= q < self.states.len() ==> #[trigger] self.finals[q] == (self.states[q].ends.len()
                > 0)
    }

    /// The state after `text`, from state `q`.
    pub open spec fn run(self, q: usize, text: Seq<u8>) -> usize
        decreases text.len(),
    {
        if text.len() == 0 {
            q
        } else {
            self.states[self.run(q, text.drop_last()) as int].transitions[text.last() as int]
        }
    }

    /// The patterns that the automaton reports for `text` as a whole: those
    /// that end in the state after `text`.
    pub open spec fn apply(self, text: Seq<u8>) -> Seq<usize> {
        self.states[self.run(START, text) as int].ends
    }

    /// Every entry of a well-formed automaton is a state, and one state is
    /// active at a time.
    pub proof fn lemma_next(self, q: usize, b: u8)
        requires
            self.wf(),
            q < self.states.len(),
        ensures
            self.states[q as int].transitions[b as int] < self.states.len(),
            self.as_nfa().step(set![q], b) == set![self.states[q as int].transitions[b as int]],
            q == STUCK ==> self.states[q as int].transitions[b as int] == STUCK,
    {
        let n = self.as_nfa();
        let t = self.states[q as int].transitions[b as int];
        assert(n.targets(q as int, b) == set![t]);
        assert(n.targets(q as int, b).contains(t));
        lemma_step_single(n, q, b);
    }

    /// The pattern-ends list of one state is the list that it holds.
    pub proof fn lemma_reported_single(self, q: usize)
        requires
            self.wf(),
            q < self.states.len(),
        ensures
            self.as_nfa().reported(set![q]) == self.states[q as int].ends,
    {
        let n = self.as_nfa();
        lemma_ends_single(n, q);
        assert(ascending(n.states[q as int].ends));
        n.lemma_reported_is(set![q], self.states[q as int].ends);
    }

    /// After any text one state is active: the one that the run leads to.
    pub proof fn lemma_run(self, text: Seq<u8>)
        requires
            self.wf(),
        ensures
            self.run(START, text) < self.states.len(),
            self.as_nfa().active_after(text) == set![self.run(START, text)],
            self.as_nfa().apply(text) == self.apply(text),
        decreases text.len(),
    {
        if text.len() > 0 {
            self.lemma_run(text.drop_last());
            self.lemma_next(self.run(START, text.drop_last()), text.last());
        }
        self.lemma_reported_single(self.run(START, text));
    }

    /// Once in the sink, always in the sink.
    pub proof fn lemma_run_stuck(self, text: Seq<u8>)
        requires
            self.wf(),
        ensures
            self.run(STUCK, text) == STUCK,
        decreases text.len(),
    {
        if text.len() > 0 {
            self.lemma_run_stuck(text.drop_last());
            self.lemma_next(STUCK, text.last());
        }
    }

    /// A run over two texts in a row is a run over both.
    pub proof fn lemma_run_concat(self, q: usize, u: Seq<u8>, v: Seq<u8>)
        ensures
            self.run(q, u + v) == self.run(self.run(q, u), v),
        decreases v.len(),
    {
        if v.len() == 0 {
            assert(u + v =~= u);
        } else {
            self.lemma_run_concat(q, u, v.drop_last());
            assert((u + v).drop_last() =~= u + v.drop_last());
        }
    }
}

/// Whether a state leads to one state at most on every byte.
pub open spec fn single_valued(st: StateModel) -> bool {
    forall|b: u8, t1: usize, t2: usize|
        #[trigger] st.targets[b as int].contains(t1) && #[trigger] st.targets[b as int].contains(t2)
            ==> t1 == t2
}

/// The entry for a set of at most one state: that state, or the sink where
/// there is none.
pub open spec fn entry_for(targets: Set<usize>) -> usize {
    if exists|t: usize| targets.contains(t) {
        targets.choose()
    } else {
        STUCK
    }
}

/// The table of a state in sparse form.
pub open spec fn lowered_state(st: StateModel) -> DfaStateModel {
    DfaStateModel {
        transitions: Seq::new(256, |b: int| entry_for(st.targets[b])),
        ends: st.ends,
    }
}

/// The table-driven form of a deterministic automaton: a byte that leads
/// nowhere leads to the sink.
pub open spec fn lowered(n: NfaModel) -> DfaModel {
    DfaModel {
        states: Seq::new(n.states.len(), |q: int| lowered_state(n.states[q])),
        finals: Seq::new(n.states.len(), |q: int| n.accepting(q)),
        dict: n.dict,
    }
}

/// An automaton is deterministic when each of its states is single-valued.
pub proof fn lemma_deterministic_states(n: NfaModel)
    ensures
        deterministic(n) <==> forall|q: int|
            0 <= q < n.states.len() ==> single_valued(#[trigger] n.states[q]),
{
    if deterministic(n) {
        assert forall|q: int| 0 <= q < n.states.len() implies single_valued(
            #[trigger] n.states[q],
        ) by {
            assert forall|b: u8, t1: usize, t2: usize|
                #[trigger] n.states[q].targets[b as int].contains(t1)
                    && #[trigger] n.states[q].targets[b as int].contains(t2) implies t1 == t2 by {
                assert(n.targets(q, b).contains(t1) && n.targets(q, b).contains(t2));
            }
        }
    }
    if forall|q: int| 0 <= q < n.states.len() ==> single_valued(#[trigger] n.states[q]) {
        assert forall|q: int, b: u8, t1: usize, t2: usize|
            0 <= q < n.states.len() && #[trigger] n.targets(q, b).contains(t1)
                && #[trigger] n.targets(q, b).contains(t2) implies t1 == t2 by {
            assert(single_valued(n.states[q]));
            assert(n.states[q].targets[b as int].contains(t1));
        }
    }
}

/// The entry for a transition of a deterministic automaton is its target.
pub proof fn lemma_entry(n: NfaModel, q: int, b: u8, t: usize)
    requires
        deterministic(n),
        0 <= q < n.states.len(),
        n.targets(q, b).contains(t),
    ensures
        entry_for(n.targets(q, b)) == t,
        n.targets(q, b) == set![t],
{
    let c = n.targets(q, b).choose();
    assert(n.targets(q, b).contains(c));
    assert(n.targets(q, b) =~= set![t]);
}

/// The table-driven form of a well-formed deterministic automaton is
/// well-formed.
pub proof fn lemma_lowered_wf(n: NfaModel)
    requires
        n.wf(),
        deterministic(n),
    ensures
        lowered(n).wf(),
{
    let d = lowered(n);
    let m = d.as_nfa();
    let rank_n = n.the_rank();
    let rank = rank_n.update(STUCK as int, 0);
    lemma_all_bytes();
    assert forall|q: int, b: u8, t: usize|
        0 <= q < m.states.len() && #[trigger] m.targets(q, b).contains(t) implies t
        < m.states.len() && m.alphabet.contains(b) && rank[t as int] <= rank[q] + 1 && (q == STUCK
        ==> t == STUCK) by {
        assert(t == entry_for(n.targets(q, b)));
        if exists|x: usize| n.targets(q, b).contains(x) {
            let x = n.targets(q, b).choose();
            assert(n.targets(q, b).contains(x));
        }
    }
    assert forall|q: int| 0 <= q < m.states.len() implies ascending((#[trigger] m.states[q]).ends)
        && m.states[q].targets.len() == 256 by {
        assert(m.states[q].ends == n.states[q].ends);
    }
    assert forall|q: int, k: int|
        0 <= q < m.states.len() && 0 <= k < m.states[q].ends.len() implies (
    #[trigger] m.states[q].ends[k]) < m.dict.len() && m.dict[m.states[q].ends[k] as int].len()
        <= rank[q] by {
        assert(m.states[q].ends == n.states[q].ends);
        assert(n.states[q].ends[k] < n.dict.len());
    }
    assert forall|b: u8, t: usize| #[trigger] m.targets(STUCK as int, b).contains(t) implies t
        == STUCK by {
        assert(m.targets(STUCK as int, b).contains(t));
    }
    assert(m.shaped());
    assert(is_rank(m, rank));
    assert forall|q: int| 0 <= q < d.states.len() implies #[trigger] d.finals[q] == (
    d.states[q].ends.len() > 0) by {}
}

/// The table-driven form reports for every text what the automaton
/// reports.
pub proof fn lemma_lowered_run(n: NfaModel, text: Seq<u8>)
    requires
        n.wf(),
        deterministic(n),
    ensures
        lowered(n).run(START, text) < n.states.len(),
        n.active_after(text) == set![lowered(n).run(START, text)] || (lowered(n).run(START, text)
            == STUCK && dead(n.active_after(text))),
    decreases text.len(),
{
    let d = lowered(n);
    if text.len() > 0 {
        let front = text.drop_last();
        let b = text.last();
        lemma_lowered_run(n, front);
        let q = d.run(START, front);
        let na = n.active_after(front);
        let q2 = d.run(START, text);
        assert(q2 == entry_for(n.targets(q as int, b)));
        if exists|x: usize| n.targets(q as int, b).contains(x) {
            let x = n.targets(q as int, b).choose();
            assert(n.targets(q as int, b).contains(x));
            lemma_entry(n, q as int, b, x);
        }
        if na == set![q] {
            lemma_step_single(n, q, b);
            if exists|x: usize| n.targets(q as int, b).contains(x) {
            } else {
                assert(n.targets(q as int, b) =~= Set::<usize>::empty());
            }
        } else {
            lemma_dead(n, na, b);
            if exists|x: usize| n.targets(STUCK as int, b).contains(x) {
                let x = n.targets(STUCK as int, b).choose();
                assert(n.targets(STUCK as int, b).contains(x));
            }
        }
    }
}

/// The table-driven form reports for every text what the automaton
/// reports.
pub proof fn lemma_lowered_apply(n: NfaModel, text: Seq<u8>)
    requires
        n.wf(),
        deterministic(n),
    ensures
        lowered(n).apply(text) == n.apply(text),
{
    let d = lowered(n);
    lemma_lowered_run(n, text);
    let q = d.run(START, text);
    let na = n.active_after(text);
    if na == set![q] {
        lemma_ends_single(n, q);
        n.lemma_reported_is(na, n.states[q as int].ends);
    } else {
        lemma_dead(n, na, 0);
        assert(n.states[STUCK as int].ends =~= Seq::<usize>::empty());
        crate::ordset::lemma_empty_to_set();
        n.lemma_reported_is(na, Seq::<usize>::empty());
    }
}

} // verus!
