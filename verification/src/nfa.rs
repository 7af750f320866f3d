//! The nondeterministic automaton: a trie of the dictionary, optionally with
//! loops that let it skip text before and after a pattern.

use vstd::prelude::*;
use crate::automaton::{Automaton, Match};
use crate::dfa::{BuildError, DFAState, DFA};
use crate::finals::bits_from_flags;
use crate::subsets::deterministic;
use crate::table::{
    lemma_deterministic_states, lemma_lowered_apply, lemma_lowered_wf, lowered,
    lowered_state, single_valued,
};
use crate::model::{all_bytes, blank_state, looped, NfaModel, StateModel};
use crate::ordset;
use crate::ordset::{ascending, lemma_empty_to_set, lemma_single_to_set, lemma_take_to_set};
use crate::trie::{
    is_trie, lemma_trie_empty, lemma_trie_end, lemma_trie_follow, lemma_trie_grow, lemma_trie_wf,
    occurs, occurs_upto, trie_upto,
};
use crate::{START, STUCK};

verus! {

/// The transitions of one state on one byte.
pub struct Edge {
    pub byte: u8,
    pub targets: Vec<usize>,
}

/// One state of an [`NFA`]: a sparse mapping from bytes to sets of states,
/// and the patterns that end here.
pub struct NFAState {
    pub(crate) edges: Vec<Edge>,
    pub(crate) pattern_ends: Vec<usize>,
}

impl NFAState {
    /// No byte has two edges, and every edge leads to an ascending,
    /// non-empty list of states.
    pub closed spec fn repr_ok(&self) -> bool {
        &&& forall|i: int, j: int|
            0 <= i < j < self.edges.len() ==> self.edges[i].byte != self.edges[j].byte
        &&& forall|i: int|
            0 <= i < self.edges.len() ==> (#[trigger] self.edges[i]).targets@.len() > 0
                && ascending(self.edges[i].targets@)
    }

    /// The states that byte `b` leads to.
    pub closed spec fn row(&self, b: u8) -> Set<usize> {
        Set::new(
            |t: usize|
                exists|i: int|
                    0 <= i < self.edges.len() && (#[trigger] self.edges[i]).byte == b
                        && self.edges[i].targets@.contains(t),
        )
    }

    /// A state without transitions that ends no pattern.
    pub fn new() -> (state: Self)
        ensures
            state.repr_ok(),
            state@ == blank_state(),
    {
        let state = NFAState { edges: Vec::new(), pattern_ends: Vec::new() };
        proof {
            assert forall|b: u8| #[trigger] state.row(b) == Set::<usize>::empty() by {
                assert(state.row(b) =~= Set::<usize>::empty());
            }
            assert(state@.targets =~= blank_state().targets);
            assert(state@.ends =~= blank_state().ends);
        }
        state
    }

    /// A state without transitions that ends the patterns `ends`.
    pub fn with_ends(ends: Vec<usize>) -> (state: Self)
        ensures
            state.repr_ok(),
            state@ == (StateModel { targets: blank_state().targets, ends: ends@ }),
    {
        let state = NFAState { edges: Vec::new(), pattern_ends: ends };
        proof {
            assert forall|b: u8| #[trigger] state.row(b) == Set::<usize>::empty() by {
                assert(state.row(b) =~= Set::<usize>::empty());
            }
            assert(state@.targets =~= blank_state().targets);
        }
        state
    }

    /// Whether a pattern ends in this state.
    pub fn is_final(&self) -> (r: bool)
        ensures
            r == (self@.ends.len() > 0),
    {
        self.pattern_ends.len() > 0
    }

    /// The position of the edge for byte `b`, if there is one.
    fn find_edge(&self, b: u8) -> (r: Option<usize>)
        ensures
            match r {
                Some(i) => i < self.edges.len() && self.edges[i as int].byte == b,
                None => forall|i: int| 0 <= i < self.edges.len() ==> self.edges[i].byte != b,
            },
    {
        let mut i: usize = 0;
        while i < self.edges.len()
            invariant
                i <= self.edges.len(),
                forall|k: int| 0 <= k < i ==> self.edges[k].byte != b,
            decreases self.edges.len() - i,
        {
            if self.edges[i].byte == b {
                return Some(i);
            }
            i += 1;
        }
        None
    }

    /// What an edge says of the row of its byte.
    proof fn lemma_row_of_edge(&self, i: int)
        requires
            self.repr_ok(),
            0 <= i < self.edges.len(),
        ensures
            self.row(self.edges[i].byte) == self.edges[i].targets@.to_set(),
            self.row(self.edges[i].byte).finite(),
            self.row(self.edges[i].byte).len() > 0,
    {
        let b = self.edges[i].byte;
        let ts = self.edges[i].targets@;
        assert forall|t: usize| self.row(b).contains(t) <==> ts.to_set().contains(t) by {
            if self.row(b).contains(t) {
                let k = choose|k: int|
                    0 <= k < self.edges.len() && (#[trigger] self.edges[k]).byte == b
                        && self.edges[k].targets@.contains(t);
                assert(k == i);
            }
            if ts.contains(t) {
                assert(self.edges[i].byte == b);
            }
        }
        assert(self.row(b) =~= ts.to_set());
        vstd::seq_lib::seq_to_set_is_finite(ts);
        assert(ts.contains(ts[0]));
        assert(ts.to_set().contains(ts[0]));
        if ts.to_set().len() == 0 {
            ts.to_set().lemma_len0_is_empty();
        }
    }

    /// A byte without an edge leads nowhere.
    proof fn lemma_row_without_edge(&self, b: u8)
        requires
            forall|i: int| 0 <= i < self.edges.len() ==> self.edges[i].byte != b,
        ensures
            self.row(b) == Set::<usize>::empty(),
    {
        assert(self.row(b) =~= Set::<usize>::empty());
    }

    /// The states that byte `b` leads to, in ascending order; `None` where
    /// it leads nowhere.
    pub fn targets_of(&self, b: u8) -> (r: Option<&Vec<usize>>)
        requires
            self.repr_ok(),
        ensures
            match r {
                Some(ts) => ascending(ts@) && ts@.len() > 0 && ts@.to_set()
                    == self@.targets[b as int],
                None => self@.targets[b as int] == Set::<usize>::empty(),
            },
    {
        match self.find_edge(b) {
            Some(i) => {
                proof {
                    self.lemma_row_of_edge(i as int);
                }
                Some(&self.edges[i].targets)
            },
            None => {
                proof {
                    self.lemma_row_without_edge(b);
                }
                None
            },
        }
    }

    /// Records that pattern `p` ends in this state.
    pub fn add_end(&mut self, p: usize)
        requires
            old(self).repr_ok(),
        ensures
            final(self).repr_ok(),
            final(self)@.targets == old(self)@.targets,
            final(self)@.ends == old(self)@.ends.push(p),
    {
        let ghost before = *self;
        self.pattern_ends.push(p);
        proof {
            assert(self.edges == before.edges);
            assert forall|b: u8| #[trigger] self.row(b) == before.row(b) by {
                assert(self.row(b) =~= before.row(b));
            }
            assert(self@.targets =~= before@.targets);
        }
    }

    /// Adds a transition to state `t` on every byte.
    pub fn add_loop(&mut self, t: usize)
        requires
            old(self).repr_ok(),
        ensures
            final(self).repr_ok(),
            final(self)@ == looped(old(self)@, t),
    {
        let ghost before = self@;
        let mut c: usize = 0;
        while c < 256
            invariant
                c <= 256,
                self.repr_ok(),
                self@.ends == before.ends,
                self@.targets.len() == 256,
                before.targets.len() == 256,
                forall|b: int| 0 <= b < c ==> self@.targets[b] == before.targets[b].insert(t),
                forall|b: int| c <= b < 256 ==> self@.targets[b] == before.targets[b],
            decreases 256 - c,
        {
            self.add_target(c as u8, t);
            c += 1;
        }
        proof {
            assert(self@.targets =~= looped(before, t).targets);
        }
    }

    /// Adds a transition on byte `b` to state `t`.
    pub fn add_target(&mut self, b: u8, t: usize)
        requires
            old(self).repr_ok(),
        ensures
            final(self).repr_ok(),
            final(self)@.ends == old(self)@.ends,
            final(self)@.targets == old(self)@.targets.update(
                b as int,
                old(self)@.targets[b as int].insert(t),
            ),
    {
        let ghost before = *self;
        match self.find_edge(b) {
            Some(i) => {
                proof {
                    before.lemma_row_of_edge(i as int);
                }
                ordset::insert(&mut self.edges[i].targets, t);
                proof {
                    assert(self.edges@.len() == before.edges@.len());
                    assert(forall|k: int|
                        0 <= k < self.edges.len() && k != i ==> self.edges[k] == before.edges[k]);
                    assert(self.edges[i as int].byte == b);
                    let ts = self.edges[i as int].targets@;
                    assert(ts.to_set().contains(t));
                    assert(ts.contains(t));
                    assert(self.repr_ok());
                    self.lemma_row_of_edge(i as int);
                    assert forall|c: u8| c != b implies #[trigger] self.row(c) == before.row(c) by {
                        assert forall|x: usize| self.row(c).contains(x) <==> before.row(
                            c,
                        ).contains(x) by {
                            if self.row(c).contains(x) {
                                let k = choose|k: int|
                                    0 <= k < self.edges.len() && (#[trigger] self.edges[k]).byte
                                        == c && self.edges[k].targets@.contains(x);
                                assert(before.edges[k] == self.edges[k]);
                            }
                            if before.row(c).contains(x) {
                                let k = choose|k: int|
                                    0 <= k < before.edges.len() && (
                                    #[trigger] before.edges[k]).byte == c
                                        && before.edges[k].targets@.contains(x);
                                assert(before.edges[k] == self.edges[k]);
                            }
                        }
                        assert(self.row(c) =~= before.row(c));
                    }
                }
            },
            None => {
                let mut ts: Vec<usize> = Vec::new();
                ts.push(t);
                self.edges.push(Edge { byte: b, targets: ts });
                proof {
                    let n = before.edges.len() as int;
                    before.lemma_row_without_edge(b);
                    assert(self.edges@ == before.edges@.push(self.edges[n]));
                    assert(self.edges[n].targets@ =~= seq![t]);
                    assert(self.repr_ok());
                    self.lemma_row_of_edge(n);
                    assert(seq![t].to_set() =~= Set::<usize>::empty().insert(t)) by {
                        assert forall|x: usize| seq![t].to_set().contains(x) <==> x == t by {
                            if x == t {
                                assert(seq![t][0] == x);
                            }
                        }
                    }
                    assert forall|c: u8| c != b implies #[trigger] self.row(c) == before.row(c) by {
                        assert forall|x: usize| self.row(c).contains(x) <==> before.row(
                            c,
                        ).contains(x) by {
                            if self.row(c).contains(x) {
                                let k = choose|k: int|
                                    0 <= k < self.edges.len() && (#[trigger] self.edges[k]).byte
                                        == c && self.edges[k].targets@.contains(x);
                                assert(before.edges[k] == self.edges[k]);
                            }
                            if before.row(c).contains(x) {
                                let k = choose|k: int|
                                    0 <= k < before.edges.len() && (
                                    #[trigger] before.edges[k]).byte == c
                                        && before.edges[k].targets@.contains(x);
                                assert(before.edges[k] == self.edges[k]);
                            }
                        }
                        assert(self.row(c) =~= before.row(c));
                    }
                }
            },
        }
        proof {
            assert(self@.targets =~= before@.targets.update(
                b as int,
                before@.targets[b as int].insert(t),
            ));
        }
    }
}

impl View for NFAState {
    type V = StateModel;

    closed spec fn view(&self) -> StateModel {
        StateModel {
            targets: Seq::new(256, |b: int| self.row(b as u8)),
            ends: self.pattern_ends@,
        }
    }
}

/// A nondeterministic automaton over bytes for a dictionary of patterns.
pub struct NFA {
    pub(crate) alphabet: Vec<u8>,
    pub(crate) states: Vec<NFAState>,
    pub(crate) dict: Vec<Vec<u8>>,
    pub(crate) depth_map: Vec<Vec<usize>>,
}

/// The patterns of a dictionary as plain byte sequences.
pub open spec fn texts(dict: Seq<Vec<u8>>) -> Seq<Seq<u8>> {
    Seq::new(dict.len(), |i: int| dict[i]@)
}

/// The automaton that the parts of an [`NFA`] stand for.
pub open spec fn model_of(states: Seq<NFAState>, alphabet: Seq<u8>, dict: Seq<Seq<u8>>) -> NfaModel {
    NfaModel { states: Seq::new(states.len(), |s: int| states[s]@), alphabet, dict }
}

impl View for NFA {
    type V = NfaModel;

    closed spec fn view(&self) -> NfaModel {
        model_of(self.states@, self.alphabet@, texts(self.dict@))
    }
}

impl NFA {
    /// The layers of states by depth, as far as `add_depth_map` has found
    /// them.
    pub closed spec fn depth_layers(&self) -> Seq<Seq<usize>> {
        Seq::new(self.depth_map@.len(), |d: int| self.depth_map@[d]@)
    }

    /// Every state is stored as it should be, and the automaton is
    /// well-formed.
    pub closed spec fn wf(&self) -> bool {
        &&& forall|s: int| 0 <= s < self.states.len() ==> (#[trigger] self.states[s]).repr_ok()
        &&& self@.wf()
    }

    /// The trie of `dict`: one state for each distinct non-empty prefix of a
    /// pattern, numbered from 2 in the order in which the patterns meet
    /// them, and each pattern's number in the state that its last byte
    /// leads to.  The alphabet holds the bytes that occur in `dict`.
    pub fn from_dictionary(dict: Vec<Vec<u8>>) -> (nfa: NFA)
        ensures
            nfa.wf(),
            nfa@.dict == texts(dict@),
            is_trie(nfa@),
            forall|b: u8| nfa@.alphabet.contains(b) <==> occurs(texts(dict@), b),
            nfa.depth_layers() == Seq::<Seq<usize>>::empty(),
    {
        let ghost dictv = texts(dict@);
        let mut states: Vec<NFAState> = Vec::new();
        states.push(NFAState::new());
        states.push(NFAState::new());
        let mut used: Vec<bool> = Vec::new();
        let mut c: usize = 0;
        while c < 256
            invariant
                c <= 256,
                used@.len() == c,
                forall|k: int| 0 <= k < c ==> !used@[k],
            decreases 256 - c,
        {
            used.push(false);
            c += 1;
        }
        let ghost mut paths: Seq<Seq<u8>> = seq![Seq::<u8>::empty(), Seq::<u8>::empty()];
        let ghost mut owners: Seq<int> = seq![0int, 0int];
        proof {
            let m = model_of(states@, Seq::empty(), dictv);
            assert(m.states =~= seq![blank_state(), blank_state()]);
            lemma_trie_empty(m);
        }
        let mut i: usize = 0;
        while i < dict.len()
            invariant
                i <= dict.len(),
                dictv == texts(dict@),
                used@.len() == 256,
                forall|b: u8| used@[b as int] <==> occurs_upto(dictv, i as int, 0, b),
                forall|s: int| 0 <= s < states.len() ==> (#[trigger] states[s]).repr_ok(),
                trie_upto(model_of(states@, Seq::empty(), dictv), paths, owners, i as int, 0),
            decreases dict.len() - i,
        {
            let mut cur: usize = START;
            let mut j: usize = 0;
            assert(dictv[i as int].take(0) =~= Seq::<u8>::empty());
            while j < dict[i].len()
                invariant
                    i < dict.len(),
                    j <= dict[i as int].len(),
                    dictv == texts(dict@),
                    used@.len() == 256,
                    forall|b: u8| used@[b as int] <==> occurs_upto(dictv, i as int, j as int, b),
                    forall|s: int| 0 <= s < states.len() ==> (#[trigger] states[s]).repr_ok(),
                    trie_upto(
                        model_of(states@, Seq::empty(), dictv),
                        paths,
                        owners,
                        i as int,
                        j as int,
                    ),
                    cur < states.len(),
                    cur != STUCK,
                    paths[cur as int] == dictv[i as int].take(j as int),
                decreases dict[i as int].len() - j,
            {
                let b: u8 = dict[i][j];
                let ghost used_before = used@;
                used.set(b as usize, true);
                proof {
                    assert(dictv[i as int][j as int] == b);
                    assert forall|x: u8| used@[x as int] <==> occurs_upto(
                        dictv,
                        i as int,
                        j as int + 1,
                        x,
                    ) by {
                        if occurs_upto(dictv, i as int, j as int + 1, x) {
                            let (p, k) = choose|p: int, k: int|
                                0 <= p <= i && p < dictv.len() && 0 <= k < dictv[p].len() && (p
                                    == i ==> k < j + 1) && #[trigger] dictv[p][k] == x;
                            if p == i && k == j {
                            } else {
                                assert(occurs_upto(dictv, i as int, j as int, x));
                            }
                        }
                        if used_before[x as int] {
                            assert(occurs_upto(dictv, i as int, j as int, x));
                            let (p, k) = choose|p: int, k: int|
                                0 <= p <= i && p < dictv.len() && 0 <= k < dictv[p].len() && (p
                                    == i ==> k < j) && #[trigger] dictv[p][k] == x;
                            assert(dictv[p][k] == x);
                        }
                    }
                }
                let ghost m = model_of(states@, Seq::empty(), dictv);
                let existing: Option<usize> = match states[cur].targets_of(b) {
                    Some(ts) => {
                        proof {
                            assert(ts@.contains(ts@[0]));
                            assert(ts@.to_set().contains(ts@[0]));
                        }
                        Some(ts[0])
                    },
                    None => None,
                };
                match existing {
                    Some(t) => {
                        proof {
                            assert(m.targets(cur as int, b).contains(t));
                            lemma_trie_follow(m, paths, owners, i as int, j as int, cur as int, t);
                        }
                        cur = t;
                    },
                    None => {
                        let nxt = states.len();
                        let ghost states_before = states@;
                        states.push(NFAState::new());
                        states[cur].add_target(b, nxt);
                        proof {
                            let m2 = model_of(states@, Seq::empty(), dictv);
                            assert(m.targets(cur as int, b) =~= Set::<usize>::empty());
                            assert(forall|s: int|
                                0 <= s < states_before.len() && s != cur ==> states@[s]
                                    == states_before[s]);
                            lemma_trie_grow(m, m2, paths, owners, i as int, j as int, cur as int);
                            paths = paths.push(dictv[i as int].take(j as int + 1));
                            owners = owners.push(i as int);
                        }
                        cur = nxt;
                    },
                }
                j += 1;
            }
            let ghost m = model_of(states@, Seq::empty(), dictv);
            let ghost states_before = states@;
            states[cur].add_end(i);
            proof {
                let m2 = model_of(states@, Seq::empty(), dictv);
                assert(dictv[i as int].take(j as int) =~= dictv[i as int]);
                assert(forall|s: int|
                    0 <= s < states_before.len() && s != cur ==> states@[s] == states_before[s]);
                lemma_trie_end(m, m2, paths, owners, i as int, cur as int);
                assert forall|x: u8| occurs_upto(dictv, i as int, j as int, x) <==> occurs_upto(
                    dictv,
                    i as int + 1,
                    0,
                    x,
                ) by {
                    if occurs_upto(dictv, i as int, j as int, x) {
                        let (p, k) = choose|p: int, k: int|
                            0 <= p <= i && p < dictv.len() && 0 <= k < dictv[p].len() && (p == i
                                ==> k < j) && #[trigger] dictv[p][k] == x;
                        assert(dictv[p][k] == x);
                    }
                    if occurs_upto(dictv, i as int + 1, 0, x) {
                        let (p, k) = choose|p: int, k: int|
                            0 <= p <= i + 1 && p < dictv.len() && 0 <= k < dictv[p].len() && (p
                                == i + 1 ==> k < 0) && #[trigger] dictv[p][k] == x;
                        assert(dictv[p][k] == x);
                    }
                }
            }
            i += 1;
        }
        let mut alphabet: Vec<u8> = Vec::new();
        let mut c: usize = 0;
        while c < 256
            invariant
                c <= 256,
                used@.len() == 256,
                forall|a: int, z: int| 0 <= a < z < alphabet@.len() ==> alphabet@[a] < alphabet@[z],
                forall|a: int| 0 <= a < alphabet@.len() ==> alphabet@[a] < c,
                forall|x: u8| alphabet@.contains(x) <==> (x < c && used@[x as int]),
            decreases 256 - c,
        {
            if used[c] {
                let ghost before = alphabet@;
                alphabet.push(c as u8);
                proof {
                    assert forall|x: u8| alphabet@.contains(x) <==> (x < c + 1 && used@[x as int]) by {
                        if alphabet@.contains(x) {
                            let k = choose|k: int| 0 <= k < alphabet@.len() && alphabet@[k] == x;
                            if k < before.len() {
                                assert(before[k] == x);
                                assert(before.contains(x));
                            }
                        }
                        if x < c && used@[x as int] {
                            assert(before.contains(x));
                            let k = choose|k: int| 0 <= k < before.len() && before[k] == x;
                            assert(alphabet@[k] == x);
                        }
                        if x == c {
                            assert(alphabet@[before.len() as int] == x);
                        }
                    }
                }
            }
            c += 1;
        }
        let nfa = NFA { alphabet, states, dict, depth_map: Vec::new() };
        let state_count = nfa.states.len();
        let pattern_count = nfa.dict.len();
        proof {
            let m0 = model_of(nfa.states@, Seq::empty(), dictv);
            let m = nfa@;
            assert(m.states == m0.states);
            assert(trie_upto(m, paths, owners, m.dict.len() as int, 0)) by {
                assert forall|s: int, b: u8, t: usize| 0 <= s < m.states.len() implies (
                #[trigger] m.targets(s, b).contains(t) <==> s != STUCK && 2 <= t < paths.len()
                    && paths[t as int] == paths[s].push(b)) by {
                    assert(m.targets(s, b) == m0.targets(s, b));
                }
            }
            lemma_trie_wf(m, paths, owners);
            assert(nfa.depth_layers() =~= Seq::<Seq<usize>>::empty());
        }
        nfa
    }
}

/// All 256 bytes in ascending order.
fn full_alphabet() -> (alphabet: Vec<u8>)
    ensures
        alphabet@ == all_bytes(),
{
    let mut alphabet: Vec<u8> = Vec::new();
    let mut c: usize = 0;
    while c < 256
        invariant
            c <= 256,
            alphabet@.len() == c,
            forall|k: int| 0 <= k < c ==> alphabet@[k] == k,
        decreases 256 - c,
    {
        alphabet.push(c as u8);
        c += 1;
    }
    proof {
        assert(alphabet@ =~= all_bytes());
    }
    alphabet
}

impl NFA {
    /// Whether `state` is an ascending list of states of this automaton.
    pub open spec fn holds(&self, state: Seq<usize>) -> bool {
        &&& ascending(state)
        &&& forall|k: int| 0 <= k < state.len() ==> state[k] < self@.states.len()
    }

    /// A well-formed automaton has a well-formed model.
    pub proof fn lemma_wf(&self)
        requires
            self.wf(),
        ensures
            self@.wf(),
    {
    }

    /// What the view of an automaton is made of.
    pub(crate) proof fn lemma_fields(&self)
        ensures
            self@ == model_of(self.states@, self.alphabet@, texts(self.dict@)),
            self@.states.len() == self.states@.len(),
            self@.alphabet == self.alphabet@,
            self@.dict == texts(self.dict@),
            forall|s: int|
                0 <= s < self.states@.len() ==> self@.states[s] == (#[trigger] self.states@[s])@,
            forall|s: int|
                0 <= s < self.states@.len() ==> self@.states[s].ends == (
                #[trigger] self.states@[s]).pattern_ends@,
            forall|state: Seq<usize>| #[trigger]
                self.holds(state) ==> self@.inside(state.to_set()),
            self.wf() <==> self@.wf() && forall|s: int|
                0 <= s < self.states@.len() ==> (#[trigger] self.states@[s]).repr_ok(),
    {
        assert forall|state: Seq<usize>| #[trigger] self.holds(state) implies self@.inside(
            state.to_set(),
        ) by {
            assert forall|x: usize| state.to_set().contains(x) implies x < self@.states.len() by {
                let k = choose|k: int| 0 <= k < state.len() && state[k] == x;
            }
        }
    }

    /// What the layers are made of.
    pub(crate) proof fn lemma_depth_layers(&self)
        ensures
            self.depth_layers() == crate::depth::layer_seqs(self.depth_map@),
    {
    }

    /// An empty depth map has no layers.
    pub(crate) proof fn lemma_no_depth_map(&self)
        requires
            self.depth_map@.len() == 0,
        ensures
            self.depth_layers() == Seq::<Seq<usize>>::empty(),
    {
        assert(self.depth_layers() =~= Seq::<Seq<usize>>::empty());
    }

    /// The automaton of the empty dictionary: a start and a sink state.
    pub fn new() -> (nfa: NFA)
        ensures
            nfa.wf(),
            nfa@.dict == Seq::<Seq<u8>>::empty(),
            nfa@.alphabet == Seq::<u8>::empty(),
            nfa@.states == seq![blank_state(), blank_state()],
            nfa.depth_layers() == Seq::<Seq<usize>>::empty(),
    {
        let nfa = NFA::from_dictionary(Vec::new());
        proof {
            assert(nfa@.dict =~= Seq::<Seq<u8>>::empty());
            if nfa@.alphabet.len() > 0 {
                let b = nfa@.alphabet[0];
                assert(nfa@.alphabet.contains(b));
                assert(occurs(nfa@.dict, b));
            }
            assert(nfa@.alphabet =~= Seq::<u8>::empty());
            let (paths, owners) = choose|paths: Seq<Seq<u8>>, owners: Seq<int>|
                trie_upto(nfa@, paths, owners, nfa@.dict.len() as int, 0);
            if nfa@.states.len() > 2 {
                assert(paths[2].len() > 0);
                assert(crate::trie::owned(nfa@.dict, 0, 0, paths[2], owners[2]));
            }
            assert forall|s: int| 0 <= s < 2 implies nfa@.states[s] == blank_state() by {
                assert(nfa@.states[s].targets.len() == 256);
                assert forall|b: int| 0 <= b < 256 implies nfa@.states[s].targets[b]
                    == Set::<usize>::empty() by {
                    assert forall|t: usize| !nfa@.states[s].targets[b].contains(t) by {
                        if nfa@.targets(s, b as u8).contains(t) {
                            assert(2 <= t < paths.len());
                        }
                    }
                    assert(nfa@.states[s].targets[b] =~= Set::<usize>::empty());
                }
                assert(nfa@.states[s].targets =~= blank_state().targets);
                let e = nfa@.states[s].ends;
                if e.len() > 0 {
                    assert(e.contains(e[0]));
                    assert(nfa@.states[s].ends.contains(e[0]));
                }
                assert(e =~= blank_state().ends);
            }
            assert(nfa@.states =~= seq![blank_state(), blank_state()]);
        }
        nfa
    }

    /// Lets the automaton skip any text before a pattern: the start state
    /// gets a loop over every byte, and the alphabet becomes all bytes.
    pub fn ignore_prefixes(&mut self)
        requires
            old(self).wf(),
        ensures
            final(self).wf(),
            final(self)@ == old(self)@.with_prefix_loop(),
            final(self).depth_layers() == old(self).depth_layers(),
    {
        let ghost before = self@;
        self.alphabet = full_alphabet();
        self.states[START].add_loop(START);
        proof {
            assert(self@.states =~= before.with_prefix_loop().states);
            before.lemma_prefix_loop_wf();
        }
    }

    /// Lets the automaton skip any text after a pattern: every state that
    /// ends a pattern gets a loop over every byte, and the alphabet becomes
    /// all bytes.
    pub fn ignore_postfixes(&mut self)
        requires
            old(self).wf(),
        ensures
            final(self).wf(),
            final(self)@ == old(self)@.with_postfix_loops(),
            final(self).depth_layers() == old(self).depth_layers(),
    {
        let ghost before = self@;
        self.alphabet = full_alphabet();
        let mut s: usize = 0;
        while s < self.states.len()
            invariant
                s <= self.states.len(),
                self.states.len() == before.states.len(),
                self.dict == old(self).dict,
                self.depth_map == old(self).depth_map,
                self.alphabet@ == all_bytes(),
                before == old(self)@,
                forall|k: int| 0 <= k < self.states.len() ==> (#[trigger] self.states[k]).repr_ok(),
                forall|k: int|
                    0 <= k < s ==> (#[trigger] self.states[k])@ == (if before.accepting(k) {
                        looped(before.states[k], k as usize)
                    } else {
                        before.states[k]
                    }),
                forall|k: int|
                    s <= k < self.states.len() ==> (#[trigger] self.states[k])@ == before.states[k],
            decreases self.states.len() - s,
        {
            if self.states[s].is_final() {
                self.states[s].add_loop(s);
            }
            s += 1;
        }
        proof {
            assert(self@.states =~= before.with_postfix_loops().states);
            before.lemma_postfix_loops_wf();
        }
    }

    /// The number of states.
    pub fn state_count(&self) -> (n: usize)
        ensures
            n == self@.states.len(),
    {
        self.states.len()
    }

    /// The states that state `state` leads to on `byte`, in ascending order.
    pub fn targets(&self, state: usize, byte: u8) -> (r: Vec<usize>)
        requires
            self.wf(),
            state < self@.states.len(),
        ensures
            ascending(r@),
            r@.to_set() == self@.targets(state as int, byte),
    {
        match self.states[state].targets_of(byte) {
            Some(ts) => ts.clone(),
            None => {
                proof {
                    lemma_empty_to_set();
                }
                Vec::new()
            },
        }
    }

    /// The patterns that end in state `state`, in ascending order.
    pub fn pattern_ends(&self, state: usize) -> (r: Vec<usize>)
        requires
            state < self@.states.len(),
        ensures
            r@ == self@.states[state as int].ends,
    {
        self.states[state].pattern_ends.clone()
    }

    /// The bytes that the automaton was built over, in ascending order.
    pub fn alphabet(&self) -> (r: Vec<u8>)
        ensures
            r@ == self@.alphabet,
    {
        self.alphabet.clone()
    }

    /// Pattern `pattern_no` of the dictionary.
    pub fn pattern(&self, pattern_no: usize) -> (r: Vec<u8>)
        requires
            pattern_no < self@.dict.len(),
        ensures
            r@ == self@.dict[pattern_no as int],
    {
        self.dict[pattern_no].clone()
    }

    /// The number of patterns in the dictionary.
    pub fn pattern_count(&self) -> (n: usize)
        ensures
            n == self@.dict.len(),
    {
        self.dict.len()
    }

    /// The states that are active one byte after those of `cur`.
    pub fn advance(&self, cur: &Vec<usize>, b: u8) -> (next: Vec<usize>)
        requires
            self.wf(),
            self.holds(cur@),
        ensures
            self.holds(next@),
            next@.to_set() == self@.step(cur@.to_set(), b),
    {
        let mut next: Vec<usize> = Vec::new();
        let mut k: usize = 0;
        proof {
            lemma_empty_to_set();
            assert(cur@.take(0) =~= Seq::<usize>::empty());
            self@.lemma_step_none(b);
        }
        while k < cur.len()
            invariant
                k <= cur.len(),
                self.wf(),
                self.holds(cur@),
                self.holds(next@),
                next@.to_set() == self@.step(cur@.take(k as int).to_set(), b),
            decreases cur.len() - k,
        {
            let s = cur[k];
            proof {
                lemma_take_to_set(cur@, k as int);
                self@.lemma_step_insert(cur@.take(k as int).to_set(), s, b);
                self@.lemma_step_inside(cur@.take(k as int + 1).to_set(), b);
            }
            match self.states[s].targets_of(b) {
                Some(ts) => {
                    ordset::union_into(&mut next, ts);
                },
                None => {
                    proof {
                        assert(next@.to_set().union(Set::<usize>::empty()) =~= next@.to_set());
                    }
                },
            }
            proof {
                assert(self@.targets(s as int, b) == self.states[s as int]@.targets[b as int]);
                assert forall|i: int| 0 <= i < next@.len() implies next@[i] < self.states.len() by {
                    assert(next@.contains(next@[i]));
                    assert(next@.to_set().contains(next@[i]));
                }
            }
            k += 1;
        }
        proof {
            assert(cur@.take(cur@.len() as int) =~= cur@);
        }
        next
    }

    /// The pattern-ends list of the active states `cur`: the patterns that
    /// end in one of them, ascending, each once.
    pub fn collect_ends(&self, cur: &Vec<usize>) -> (ends: Vec<usize>)
        requires
            self.wf(),
            self.holds(cur@),
        ensures
            ends@ == self@.reported(cur@.to_set()),
    {
        let mut ends: Vec<usize> = Vec::new();
        let mut k: usize = 0;
        proof {
            lemma_empty_to_set();
            assert(cur@.take(0) =~= Seq::<usize>::empty());
            self@.lemma_ends_of_none();
        }
        while k < cur.len()
            invariant
                k <= cur.len(),
                self.wf(),
                self.holds(cur@),
                ascending(ends@),
                ends@.to_set() == self@.ends_of(cur@.take(k as int).to_set()),
            decreases cur.len() - k,
        {
            let s = cur[k];
            proof {
                lemma_take_to_set(cur@, k as int);
                self@.lemma_ends_of_insert(cur@.take(k as int).to_set(), s);
                assert(self@.states[s as int].ends == self.states[s as int].pattern_ends@);
            }
            ordset::union_into(&mut ends, &self.states[s].pattern_ends);
            k += 1;
        }
        proof {
            assert(cur@.take(cur@.len() as int) =~= cur@);
            self@.lemma_reported_is(cur@.to_set(), ends@);
        }
        ends
    }

    /// The patterns that the automaton reports for `input` as a whole: those
    /// that end in a state that is active after the last byte, ascending.
    pub fn apply(&self, input: &[u8]) -> (r: Vec<usize>)
        requires
            self.wf(),
        ensures
            r@ == self@.apply(input@),
    {
        let mut cur: Vec<usize> = Vec::new();
        cur.push(START);
        let mut i: usize = 0;
        proof {
            assert(cur@ =~= seq![START]);
            lemma_single_to_set(START);
            assert(input@.take(0) =~= Seq::<u8>::empty());
        }
        while i < input.len() && cur.len() > 0
            invariant
                i <= input.len(),
                self.wf(),
                self.holds(cur@),
                cur@.to_set() == self@.active_after(input@.take(i as int)),
            decreases input.len() - i,
        {
            let next = self.advance(&cur, input[i]);
            proof {
                assert(input@.take(i as int + 1) =~= input@.take(i as int).push(input@[i as int]));
                self@.lemma_run_push(set![START], input@.take(i as int), input@[i as int]);
            }
            cur = next;
            i += 1;
        }
        proof {
            let rest = input@.subrange(i as int, input@.len() as int);
            assert(input@.take(i as int) + rest =~= input@);
            self@.lemma_run_concat(set![START], input@.take(i as int), rest);
            if i < input.len() {
                assert(cur@ =~= Seq::<usize>::empty());
                lemma_empty_to_set();
                self@.lemma_run_none(rest);
            } else {
                assert(rest =~= Seq::<u8>::empty());
            }
        }
        self.collect_ends(&cur)
    }
}

impl Automaton for NFA {
    type State = Vec<usize>;

    open spec fn model(&self) -> NfaModel {
        self@
    }

    open spec fn valid(&self) -> bool {
        self.wf()
    }

    open spec fn valid_state(&self, state: &Vec<usize>) -> bool {
        self.holds(state@)
    }

    open spec fn active(&self, state: &Vec<usize>) -> Set<usize> {
        state@.to_set()
    }

    proof fn lemma_valid(&self) {
    }

    fn start_state(&self) -> (state: Vec<usize>) {
        let mut state: Vec<usize> = Vec::new();
        state.push(START);
        proof {
            assert(state@ =~= seq![START]);
            lemma_single_to_set(START);
        }
        state
    }

    fn stuck_state(&self) -> (state: Vec<usize>) {
        let mut state: Vec<usize> = Vec::new();
        state.push(STUCK);
        proof {
            assert(state@ =~= seq![STUCK]);
            lemma_single_to_set(STUCK);
        }
        state
    }

    fn next_state(&self, state: &Vec<usize>, input: &u8) -> (next: Vec<usize>) {
        self.advance(state, *input)
    }

    fn has_match(&self, state: &Vec<usize>, patt_no_offset: usize) -> (r: bool) {
        let ends = self.collect_ends(state);
        patt_no_offset < ends.len()
    }

    fn get_match(&self, state: &Vec<usize>, patt_no_offset: usize, text_offset: usize) -> (m:
        Match) {
        let ends = self.collect_ends(state);
        let pattern_no = ends[patt_no_offset];
        proof {
            self@.lemma_reported(state@.to_set());
            assert(self@.dict[pattern_no as int] == self.dict[pattern_no as int]@);
        }
        Match {
            pattern_no,
            start: text_offset - self.dict[pattern_no].len(),
            end: text_offset,
        }
    }
}

impl NFAState {
    /// The table of this state: for each byte the state that it leads to,
    /// or the sink where it leads nowhere.  Fails where a byte leads to more
    /// than one state.
    pub fn into_dfa(self) -> (r: Result<DFAState, BuildError>)
        requires
            self.repr_ok(),
        ensures
            match r {
                Ok(state) => single_valued(self@) && state@ == lowered_state(self@),
                Err(e) => e == BuildError::NonDeterministic && !single_valued(self@),
            },
    {
        let mut transitions: Vec<usize> = Vec::new();
        let mut c: usize = 0;
        while c < 256
            invariant
                c <= 256,
                transitions@.len() == c,
                forall|k: int| 0 <= k < c ==> transitions@[k] == STUCK,
            decreases 256 - c,
        {
            transitions.push(STUCK);
            c += 1;
        }
        let mut i: usize = 0;
        while i < self.edges.len()
            invariant
                i <= self.edges.len(),
                self.repr_ok(),
                transitions@.len() == 256,
                forall|k: int| 0 <= k < i ==> (#[trigger] self.edges[k]).targets@.len() == 1,
                forall|k: int|
                    0 <= k < i ==> transitions@[(#[trigger] self.edges[k]).byte as int]
                        == self.edges[k].targets@[0],
                forall|b: u8|
                    (forall|k: int| 0 <= k < i ==> (#[trigger] self.edges[k]).byte != b)
                        ==> #[trigger] transitions@[b as int] == STUCK,
            decreases self.edges.len() - i,
        {
            if self.edges[i].targets.len() != 1 {
                proof {
                    self.lemma_row_of_edge(i as int);
                    let b = self.edges[i as int].byte;
                    let ts = self.edges[i as int].targets@;
                    assert(ts.contains(ts[0]) && ts.contains(ts[1]));
                    assert(self@.targets[b as int].contains(ts[0]));
                    assert(self@.targets[b as int].contains(ts[1]));
                }
                return Err(BuildError::NonDeterministic);
            }
            let byte = self.edges[i].byte;
            let target = self.edges[i].targets[0];
            transitions.set(byte as usize, target);
            i += 1;
        }
        proof {
            assert forall|b: u8, t1: usize, t2: usize|
                #[trigger] self@.targets[b as int].contains(t1)
                    && #[trigger] self@.targets[b as int].contains(t2) implies t1 == t2 by {
                let k1 = choose|k: int|
                    0 <= k < self.edges.len() && (#[trigger] self.edges[k]).byte == b
                        && self.edges[k].targets@.contains(t1);
                let k2 = choose|k: int|
                    0 <= k < self.edges.len() && (#[trigger] self.edges[k]).byte == b
                        && self.edges[k].targets@.contains(t2);
                assert(k1 == k2);
                assert(self.edges[k1].targets@.len() == 1);
            }
            assert forall|b: int| 0 <= b < 256 implies transitions@[b] == lowered_state(
                self@,
            ).transitions[b] by {
                let byte = b as u8;
                if exists|k: int| 0 <= k < self.edges.len() && self.edges[k].byte == byte {
                    let k = choose|k: int| 0 <= k < self.edges.len() && self.edges[k].byte == byte;
                    self.lemma_row_of_edge(k);
                    let ts = self.edges[k].targets@;
                    assert(ts.contains(ts[0]));
                    assert(self.row(byte).contains(ts[0]));
                    let picked = self.row(byte).choose();
                    assert(self.row(byte).contains(picked));
                    assert(ts.contains(picked));
                    assert(transitions@[self.edges[k].byte as int] == ts[0]);
                } else {
                    self.lemma_row_without_edge(byte);
                    assert(transitions@[byte as int] == STUCK);
                }
            }
            assert(transitions@ =~= lowered_state(self@).transitions);
        }
        Ok(DFAState::new(transitions, self.pattern_ends))
    }
}

impl NFA {
    /// The table-driven form of a deterministic automaton: each state turns
    /// into a table in which a byte that leads nowhere leads to the sink,
    /// and the states that end a pattern are marked as accepting.  Fails
    /// where a state leads to more than one state on some byte.
    pub fn into_dfa(self) -> (r: Result<DFA, BuildError>)
        requires
            self.wf(),
        ensures
            match r {
                Ok(dfa) => deterministic(self@) && dfa@ == lowered(self@) && dfa.wf(),
                Err(e) => e == BuildError::NonDeterministic && !deterministic(self@),
            },
            r.is_ok() ==> forall|text: Seq<u8>| #[trigger]
                r.unwrap()@.apply(text) == self@.apply(text),
    {
        let ghost n = self@;
        let mut sparse = self.states;
        let dict = self.dict;
        let mut flags: Vec<bool> = Vec::new();
        let mut states: Vec<DFAState> = Vec::new();
        let count = sparse.len();
        let mut i: usize = 0;
        proof {
            lemma_deterministic_states(n);
        }
        while i < count
            invariant
                i <= count,
                count == sparse.len(),
                count == n.states.len(),
                states@.len() == i,
                flags@.len() == i,
                forall|q: int| i <= q < count ==> (#[trigger] sparse[q]).repr_ok() && sparse[q]@
                    == n.states[q],
                n == self@,
                dict == self.dict,
                forall|q: int| 0 <= q < i ==> single_valued(#[trigger] n.states[q]),
                forall|q: int|
                    0 <= q < i ==> (#[trigger] states@[q])@ == lowered_state(n.states[q]),
                forall|q: int| 0 <= q < i ==> #[trigger] flags@[q] == n.accepting(q),
                deterministic(n) <==> forall|q: int|
                    0 <= q < n.states.len() ==> single_valued(#[trigger] n.states[q]),
            decreases count - i,
        {
            let mut state = NFAState::new();
            std::mem::swap(&mut state, &mut sparse[i]);
            flags.push(state.is_final());
            match state.into_dfa() {
                Ok(table) => {
                    states.push(table);
                },
                Err(e) => {
                    proof {
                        assert(!single_valued(n.states[i as int]));
                        assert(!deterministic(n));
                    }
                    return Err(e);
                },
            }
            i += 1;
        }
        let finals = bits_from_flags(&flags);
        let dfa = DFA::new(states, finals, dict);
        proof {
            assert(deterministic(n));
            assert(dfa@.states =~= lowered(n).states);
            assert(dfa@.finals =~= lowered(n).finals);
            assert(dfa@ == lowered(n));
            lemma_lowered_wf(n);
            assert forall|text: Seq<u8>| #[trigger] dfa@.apply(text) == n.apply(text) by {
                lemma_lowered_apply(n, text);
            }
        }
        Ok(dfa)
    }
}

impl Default for NFA {
    /// The automaton of the empty dictionary.
    fn default() -> (nfa: Self)
        ensures
            nfa.wf(),
            nfa@.dict == Seq::<Seq<u8>>::empty(),
            nfa@.alphabet == Seq::<u8>::empty(),
            nfa@.states == seq![blank_state(), blank_state()],
    {
        NFA::new()
    }
}

} // verus!
