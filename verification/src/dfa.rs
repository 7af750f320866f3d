//! The table-driven deterministic automata: one whose accepting states are
//! marked in a vector of bits, and one that holds the mark in each state and
//! whose tables have been checked to stay inside the automaton.

use vstd::prelude::*;
use crate::automaton::{Automaton, Match};
use crate::finals::{bit_at, bits};
use crate::model::NfaModel;
use crate::nfa::texts;
use crate::table::{DfaModel, DfaStateModel};
use crate::{START, STUCK};

verus! {

/// Why an automaton could not be brought into another form.
#[derive(Copy, Clone, Debug, PartialEq, Eq, Structural)]
pub enum BuildError {
    /// A state leads to more than one state on some byte.
    NonDeterministic,
    /// A table entry is not the number of a state.
    OffsetOutOfRange,
}

/// One state of a [`DFA`]: the table of next states, one for each byte, and
/// the patterns that end here.
pub struct DFAState {
    pub(crate) transitions: Vec<usize>,
    pub(crate) pattern_ends: Vec<usize>,
}

impl View for DFAState {
    type V = DfaStateModel;

    closed spec fn view(&self) -> DfaStateModel {
        DfaStateModel { transitions: self.transitions@, ends: self.pattern_ends@ }
    }
}

impl DFAState {
    /// A state with the given table and pattern ends.
    pub fn new(transitions: Vec<usize>, pattern_ends: Vec<usize>) -> (state: Self)
        ensures
            state@ == (DfaStateModel { transitions: transitions@, ends: pattern_ends@ }),
    {
        DFAState { transitions, pattern_ends }
    }
}

/// The models of a sequence of states.
pub open spec fn state_models(states: Seq<DFAState>) -> Seq<DfaStateModel> {
    Seq::new(states.len(), |q: int| states[q]@)
}

/// A deterministic automaton with a dense table for every state.
pub struct DFA {
    pub(crate) states: Vec<DFAState>,
    pub(crate) finals: bit_vec::BitVec,
    pub(crate) dict: Vec<Vec<u8>>,
}

impl View for DFA {
    type V = DfaModel;

    closed spec fn view(&self) -> DfaModel {
        DfaModel {
            states: state_models(self.states@),
            finals: bits(self.finals),
            dict: texts(self.dict@),
        }
    }
}

/// The state after one more byte, in a well-formed table.
fn table_step(model: Ghost<DfaModel>, transitions: &Vec<usize>, state: usize, input: u8) -> (next:
    usize)
    requires
        model@.wf(),
        state < model@.states.len(),
        transitions@ == model@.states[state as int].transitions,
    ensures
        next < model@.states.len(),
        next == model@.states[state as int].transitions[input as int],
        set![next] == model@.as_nfa().step(set![state], input),
        state == STUCK ==> next == STUCK,
{
    proof {
        model@.lemma_next(state, input);
    }
    transitions[input as usize]
}

impl DFA {
    /// An automaton of the given states, accepting marks and dictionary.
    pub fn new(states: Vec<DFAState>, finals: bit_vec::BitVec, dict: Vec<Vec<u8>>) -> (dfa: Self)
        ensures
            dfa@ == (DfaModel {
                states: state_models(states@),
                finals: bits(finals),
                dict: texts(dict@),
            }),
    {
        DFA { states, finals, dict }
    }

    /// Whether the automaton is well-formed.
    pub open spec fn wf(&self) -> bool {
        self@.wf()
    }

    /// The number of states.
    pub fn state_count(&self) -> (n: usize)
        ensures
            n == self@.states.len(),
    {
        self.states.len()
    }

    /// The table of state `state`: the next state for each byte.
    pub fn transitions(&self, state: usize) -> (r: Vec<usize>)
        requires
            state < self@.states.len(),
        ensures
            r@ == self@.states[state as int].transitions,
    {
        self.states[state].transitions.clone()
    }

    /// The patterns that end in state `state`.
    pub fn pattern_ends(&self, state: usize) -> (r: Vec<usize>)
        requires
            state < self@.states.len(),
        ensures
            r@ == self@.states[state as int].ends,
    {
        self.states[state].pattern_ends.clone()
    }

    /// Whether state `state` is marked as accepting.
    pub fn is_final(&self, state: usize) -> (r: bool)
        requires
            state < self@.finals.len(),
        ensures
            r == self@.finals[state as int],
    {
        bit_at(&self.finals, state)
    }

    /// The same automaton with the accepting mark held in each state,
    /// provided that every table entry is the number of a state.
    pub fn into_ddfa(self) -> (r: Result<DDFA, BuildError>)
        requires
            self@.finals.len() >= self@.states.len(),
        ensures
            match r {
                Ok(ddfa) => self@.in_range() && ddfa@.states == self@.states && ddfa@.dict
                    == self@.dict && ddfa@.finals == self@.finals.take(
                    self@.states.len() as int,
                ),
                Err(e) => e == BuildError::OffsetOutOfRange && !self@.in_range(),
            },
            self.wf() ==> r.is_ok() && r.unwrap()@ == self@ && r.unwrap().wf(),
    {
        let states_len = self.states.len();
        let mut states: Vec<DDFAState> = Vec::new();
        let mut i: usize = 0;
        while i < states_len
            invariant
                i <= states_len,
                states_len == self.states.len(),
                bits(self.finals).len() >= states_len,
                states@.len() == i,
                forall|q: int|
                    0 <= q < i ==> (#[trigger] states@[q]).transitions@
                        == self.states@[q].transitions@ && states@[q].pattern_ends@
                        == self.states@[q].pattern_ends@ && states@[q].is_final == bits(
                        self.finals,
                    )[q],
                forall|q: int, k: int|
                    0 <= q < i && 0 <= k < self.states@[q].transitions@.len()
                        ==> #[trigger] self.states@[q].transitions@[k] < states_len,
            decreases states_len - i,
        {
            let row = &self.states[i].transitions;
            let mut v: Vec<usize> = Vec::new();
            let mut k: usize = 0;
            while k < row.len()
                invariant
                    k <= row.len(),
                    i < states_len,
                    states_len == self.states.len(),
                    row@ == self.states@[i as int].transitions@,
                    v@ == row@.take(k as int),
                    forall|j: int| 0 <= j < k ==> row@[j] < states_len,
                decreases row.len() - k,
            {
                let offset = row[k];
                if offset >= states_len {
                    proof {
                        assert(self@.states[i as int].transitions[k as int] == offset);
                        if self.wf() {
                            assert(self@.states[i as int].transitions.len() == 256);
                            self@.lemma_next(i, k as u8);
                        }
                    }
                    return Err(BuildError::OffsetOutOfRange);
                }
                v.push(offset);
                proof {
                    assert(v@ =~= row@.take(k as int + 1));
                }
                k += 1;
            }
            proof {
                assert(row@.take(row@.len() as int) =~= row@);
            }
            let state = DDFAState::new(
                v,
                self.states[i].pattern_ends.clone(),
                bit_at(&self.finals, i),
            );
            states.push(state);
            i += 1;
        }
        let ddfa = DDFA::new(states, self.dict);
        proof {
            assert forall|q: int, k: int|
                0 <= q < self@.states.len() && 0 <= k < self@.states[q].transitions.len()
                    implies #[trigger] self@.states[q].transitions[k] < self@.states.len() by {
                assert(self.states@[q].transitions@[k] < states_len);
            }
            assert(ddfa@.states =~= self@.states) by {
                assert forall|q: int| 0 <= q < ddfa@.states.len() implies ddfa@.states[q]
                    == self@.states[q] by {
                    assert(states@[q].transitions@ == self.states@[q].transitions@);
                }
            }
            assert(ddfa@.finals =~= self@.finals.take(self@.states.len() as int)) by {
                assert forall|q: int| 0 <= q < ddfa@.finals.len() implies ddfa@.finals[q]
                    == self@.finals[q] by {
                    assert(states@[q].is_final == bits(self.finals)[q]);
                }
            }
            if self.wf() {
                assert(self@.finals.take(self@.states.len() as int) =~= self@.finals);
            }
        }
        Ok(ddfa)
    }

    /// The patterns that the automaton reports for `input` as a whole: those
    /// that end in the state that the input leads to.
    pub fn apply(&self, input: &[u8]) -> (r: Vec<usize>)
        requires
            self.wf(),
        ensures
            r@ == self@.apply(input@),
    {
        let mut cur_state: usize = START;
        let mut i: usize = 0;
        proof {
            assert(input@.take(0) =~= Seq::<u8>::empty());
            self@.lemma_run(input@.take(0));
        }
        while i < input.len() && cur_state != STUCK
            invariant
                i <= input.len(),
                self.wf(),
                cur_state < self.states.len(),
                cur_state == self@.run(START, input@.take(i as int)),
            decreases input.len() - i,
        {
            cur_state = table_step(
                Ghost(self@),
                &self.states[cur_state].transitions,
                cur_state,
                input[i],
            );
            proof {
                assert(input@.take(i as int + 1).drop_last() =~= input@.take(i as int));
            }
            i += 1;
        }
        proof {
            let rest = input@.subrange(i as int, input@.len() as int);
            assert(input@.take(i as int) + rest =~= input@);
            self@.lemma_run_concat(START, input@.take(i as int), rest);
            if i < input.len() {
                self@.lemma_run_stuck(rest);
            } else {
                assert(rest =~= Seq::<u8>::empty());
            }
        }
        self.states[cur_state].pattern_ends.clone()
    }
}

impl Automaton for DFA {
    type State = usize;

    open spec fn model(&self) -> NfaModel {
        self@.as_nfa()
    }

    open spec fn valid(&self) -> bool {
        self.wf()
    }

    open spec fn valid_state(&self, state: &usize) -> bool {
        *state < self@.states.len()
    }

    open spec fn active(&self, state: &usize) -> Set<usize> {
        set![*state]
    }

    proof fn lemma_valid(&self) {
    }

    fn start_state(&self) -> (state: usize) {
        START
    }

    fn stuck_state(&self) -> (state: usize) {
        STUCK
    }

    fn next_state(&self, state: &usize, input: &u8) -> (next: usize) {
        table_step(Ghost(self@), &self.states[*state].transitions, *state, *input)
    }

    fn has_match(&self, state: &usize, patt_no_offset: usize) -> (r: bool) {
        proof {
            self@.lemma_reported_single(*state);
        }
        patt_no_offset < self.states[*state].pattern_ends.len()
    }

    fn get_match(&self, state: &usize, patt_no_offset: usize, text_offset: usize) -> (m: Match) {
        proof {
            self@.lemma_reported_single(*state);
            self@.as_nfa().lemma_reported(set![*state]);
        }
        let pattern_no = self.states[*state].pattern_ends[patt_no_offset];
        Match {
            pattern_no,
            start: text_offset - self.dict[pattern_no].len(),
            end: text_offset,
        }
    }
}

/// One state of a [`DDFA`]: the table of next states, the patterns that end
/// here, and whether any does.
pub struct DDFAState {
    pub(crate) transitions: Vec<usize>,
    pub(crate) pattern_ends: Vec<usize>,
    pub(crate) is_final: bool,
}

impl View for DDFAState {
    type V = DfaStateModel;

    closed spec fn view(&self) -> DfaStateModel {
        DfaStateModel { transitions: self.transitions@, ends: self.pattern_ends@ }
    }
}

impl DDFAState {
    /// A state with the given table, pattern ends and accepting mark.
    pub(crate) fn new(transitions: Vec<usize>, pattern_ends: Vec<usize>, is_final: bool) -> (state:
        Self)
        ensures
            state.transitions == transitions,
            state.pattern_ends == pattern_ends,
            state.is_final == is_final,
    {
        DDFAState { transitions, pattern_ends, is_final }
    }
}

/// A deterministic automaton whose tables are known to stay inside it, with
/// the accepting mark held in each state.
pub struct DDFA {
    pub(crate) states: Vec<DDFAState>,
    pub(crate) dict: Vec<Vec<u8>>,
}

impl View for DDFA {
    type V = DfaModel;

    closed spec fn view(&self) -> DfaModel {
        DfaModel {
            states: Seq::new(self.states@.len(), |q: int| self.states@[q]@),
            finals: Seq::new(self.states@.len(), |q: int| self.states@[q].is_final),
            dict: texts(self.dict@),
        }
    }
}

impl DDFA {
    /// An automaton of the given states and dictionary.
    pub(crate) fn new(states: Vec<DDFAState>, dict: Vec<Vec<u8>>) -> (ddfa: Self)
        ensures
            ddfa.states == states,
            ddfa.dict == dict,
    {
        DDFA { states, dict }
    }

    /// Whether the automaton is well-formed.
    pub open spec fn wf(&self) -> bool {
        self@.wf()
    }

    /// The number of states.
    pub fn state_count(&self) -> (n: usize)
        ensures
            n == self@.states.len(),
    {
        self.states.len()
    }

    /// The table of state `state`: the next state for each byte.
    pub fn transitions(&self, state: usize) -> (r: Vec<usize>)
        requires
            state < self@.states.len(),
        ensures
            r@ == self@.states[state as int].transitions,
    {
        self.states[state].transitions.clone()
    }

    /// The patterns that end in state `state`.
    pub fn pattern_ends(&self, state: usize) -> (r: Vec<usize>)
        requires
            state < self@.states.len(),
        ensures
            r@ == self@.states[state as int].ends,
    {
        self.states[state].pattern_ends.clone()
    }

    /// Whether state `state` is marked as accepting.
    pub fn is_final(&self, state: usize) -> (r: bool)
        requires
            state < self@.finals.len(),
        ensures
            r == self@.finals[state as int],
    {
        self.states[state].is_final
    }

    /// The patterns that the automaton reports for `input` as a whole: those
    /// that end in the state that the input leads to.
    pub fn apply(&self, input: &[u8]) -> (r: Vec<usize>)
        requires
            self.wf(),
        ensures
            r@ == self@.apply(input@),
    {
        let mut cur_state: usize = START;
        let mut i: usize = 0;
        proof {
            assert(input@.take(0) =~= Seq::<u8>::empty());
            self@.lemma_run(input@.take(0));
        }
        while i < input.len() && cur_state != STUCK
            invariant
                i <= input.len(),
                self.wf(),
                cur_state < self.states.len(),
                cur_state == self@.run(START, input@.take(i as int)),
            decreases input.len() - i,
        {
            cur_state = table_step(
                Ghost(self@),
                &self.states[cur_state].transitions,
                cur_state,
                input[i],
            );
            proof {
                assert(input@.take(i as int + 1).drop_last() =~= input@.take(i as int));
            }
            i += 1;
        }
        proof {
            let rest = input@.subrange(i as int, input@.len() as int);
            assert(input@.take(i as int) + rest =~= input@);
            self@.lemma_run_concat(START, input@.take(i as int), rest);
            if i < input.len() {
                self@.lemma_run_stuck(rest);
            } else {
                assert(rest =~= Seq::<u8>::empty());
            }
        }
        self.states[cur_state].pattern_ends.clone()
    }
}

impl Automaton for DDFA {
    type State = usize;

    open spec fn model(&self) -> NfaModel {
        self@.as_nfa()
    }

    open spec fn valid(&self) -> bool {
        self.wf()
    }

    open spec fn valid_state(&self, state: &usize) -> bool {
        *state < self@.states.len()
    }

    open spec fn active(&self, state: &usize) -> Set<usize> {
        set![*state]
    }

    proof fn lemma_valid(&self) {
    }

    fn start_state(&self) -> (state: usize) {
        START
    }

    fn stuck_state(&self) -> (state: usize) {
        STUCK
    }

    fn next_state(&self, state: &usize, input: &u8) -> (next: usize) {
        table_step(Ghost(self@), &self.states[*state].transitions, *state, *input)
    }

    fn has_match(&self, state: &usize, patt_no_offset: usize) -> (r: bool) {
        proof {
            self@.lemma_reported_single(*state);
        }
        patt_no_offset < self.states[*state].pattern_ends.len()
    }

    fn get_match(&self, state: &usize, patt_no_offset: usize, text_offset: usize) -> (m: Match) {
        proof {
            self@.lemma_reported_single(*state);
            self@.as_nfa().lemma_reported(set![*state]);
        }
        let pattern_no = self.states[*state].pattern_ends[patt_no_offset];
        Match {
            pattern_no,
            start: text_offset - self.dict[pattern_no].len(),
            end: text_offset,
        }
    }
}

} // verus!
