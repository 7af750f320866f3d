//! The mathematical model of a nondeterministic automaton over bytes, and
//! what it means to run one.

use vstd::prelude::*;
use crate::ordset::{ascending, lemma_listing, lemma_listing_unique, listing};
use crate::{START, STUCK};

verus! {

/// One state: for each of the 256 bytes the set of states it leads to, and
/// the numbers of the patterns that end in it.
pub struct StateModel {
    pub targets: Seq<Set<usize>>,
    pub ends: Seq<usize>,
}

/// An automaton: its states by number, the bytes it was built over in
/// ascending order, and the dictionary it searches for.
pub struct NfaModel {
    pub states: Seq<StateModel>,
    pub alphabet: Seq<u8>,
    pub dict: Seq<Seq<u8>>,
}

/// Whether `rank` bounds, for each state, the length of every pattern that
/// ends in it, and grows by at most one along every transition.  The
/// start state has rank zero, so a state that is active after `n` bytes has
/// a rank of at most `n`.
pub open spec fn is_rank(m: NfaModel, rank: Seq<nat>) -> bool {
    &&& rank.len() == m.states.len()
    &&& rank[START as int] == 0
    &&& forall|s: int, b: u8, t: usize|
        0 <= s < m.states.len() && #[trigger] m.targets(s, b).contains(t) ==> rank[t as int]
            <= rank[s] + 1
    &&& forall|s: int, k: int|
        0 <= s < m.states.len() && 0 <= k < m.states[s].ends.len() ==> m.dict[(
        #[trigger] m.states[s].ends[k]) as int].len() <= rank[s]
}

impl NfaModel {
    /// The states that state `s` leads to on byte `b`.
    pub open spec fn targets(self, s: int, b: u8) -> Set<usize> {
        self.states[s].targets[b as int]
    }

    /// Whether state `s` ends a pattern.
    pub open spec fn accepting(self, s: int) -> bool {
        self.states[s].ends.len() > 0
    }

    /// The shape that every automaton of this library has: a start and a
    /// sink state, transitions that stay inside the automaton and use only
    /// bytes of the alphabet, a sink that leads to itself at most and ends
    /// nothing, and ascending pattern numbers of the dictionary in every
    /// state.
    pub open spec fn shaped(self) -> bool {
        &&& 2 <= self.states.len() <= usize::MAX
        &&& self.dict.len() <= usize::MAX
        &&& forall|s: int| 0 <= s < self.states.len() ==> (#[trigger] self.states[s]).targets.len() == 256
        &&& forall|s: int, b: u8, t: usize|
            0 <= s < self.states.len() && #[trigger] self.targets(s, b).contains(t) ==> t
                < self.states.len()
        &&& forall|s: int, b: u8, t: usize|
            0 <= s < self.states.len() && #[trigger] self.targets(s, b).contains(t)
                ==> self.alphabet.contains(b)
        &&& forall|b: u8, t: usize| #[trigger] self.targets(STUCK as int, b).contains(t) ==> t == STUCK
        &&& self.states[STUCK as int].ends.len() == 0
        &&& forall|s: int| 0 <= s < self.states.len() ==> ascending((#[trigger] self.states[s]).ends)
        &&& forall|s: int, k: int|
            0 <= s < self.states.len() && 0 <= k < self.states[s].ends.len()
                ==> #[trigger] self.states[s].ends[k] < self.dict.len()
        &&& forall|i: int, j: int|
            0 <= i < j < self.alphabet.len() ==> self.alphabet[i] < self.alphabet[j]
    }

    /// Well-formedness: the shape above, and no state ends a pattern that
    /// is longer than the shortest text that reaches the state.
    pub open spec fn wf(self) -> bool {
        &&& self.shaped()
        &&& exists|rank: Seq<nat>| is_rank(self, rank)
    }

    /// The states that are active after one more byte `b`.
    pub open spec fn step(self, active: Set<usize>, b: u8) -> Set<usize> {
        Set::new(
            |t: usize|
                exists|s: usize|
                    active.contains(s) && s < self.states.len() && #[trigger] self.targets(
                        s as int,
                        b,
                    ).contains(t),
        )
    }

    /// The states that are active after `text`, starting from `active`.
    pub open spec fn run(self, active: Set<usize>, text: Seq<u8>) -> Set<usize>
        decreases text.len(),
    {
        if text.len() == 0 {
            active
        } else {
            self.step(self.run(active, text.drop_last()), text.last())
        }
    }

    /// The states that are active after `text`, starting from the start state.
    pub open spec fn active_after(self, text: Seq<u8>) -> Set<usize> {
        self.run(set![START], text)
    }

    /// The patterns that end in some state of `active`.
    pub open spec fn ends_of(self, active: Set<usize>) -> Set<usize> {
        Set::new(
            |p: usize|
                exists|s: usize|
                    active.contains(s) && s < self.states.len() && #[trigger] self.states[s as int].ends.contains(
                        p,
                    ),
        )
    }

    /// The pattern-ends list of a set of active states: every pattern that
    /// ends in one of them, once, in ascending order.
    pub open spec fn reported(self, active: Set<usize>) -> Seq<usize> {
        listing(self.ends_of(active), self.dict.len())
    }

    /// The patterns that the automaton reports for `text` as a whole.
    pub open spec fn apply(self, text: Seq<u8>) -> Seq<usize> {
        self.reported(self.active_after(text))
    }

    /// The patterns that the automaton reports for `text`, as a set.
    pub open spec fn accepted(self, text: Seq<u8>) -> Set<usize> {
        self.ends_of(self.active_after(text))
    }

}

impl NfaModel {
    /// A rank of this automaton (see [`is_rank`]).
    pub open spec fn the_rank(self) -> Seq<nat> {
        choose|rank: Seq<nat>| is_rank(self, rank)
    }

    /// Whether every state of `active` has a rank of at most `n`.
    pub open spec fn within(self, active: Set<usize>, n: nat) -> bool {
        forall|s: usize|
            active.contains(s) && s < self.states.len() ==> self.the_rank()[s as int] <= n
    }

    /// Whether every member of `active` is a state of this automaton.
    pub open spec fn inside(self, active: Set<usize>) -> bool {
        forall|s: usize| active.contains(s) ==> s < self.states.len()
    }

    /// A step leads to states of the automaton.
    pub proof fn lemma_step_inside(self, active: Set<usize>, b: u8)
        requires
            self.shaped(),
        ensures
            self.inside(self.step(active, b)),
    {
        assert forall|t: usize| self.step(active, b).contains(t) implies t < self.states.len() by {
            let s = choose|s: usize|
                active.contains(s) && s < self.states.len() && #[trigger] self.targets(
                    s as int,
                    b,
                ).contains(t);
            assert(self.targets(s as int, b).contains(t));
        }
    }

    /// From no state a step leads nowhere.
    pub proof fn lemma_step_none(self, b: u8)
        ensures
            self.step(Set::empty(), b) == Set::<usize>::empty(),
    {
        assert(self.step(Set::empty(), b) =~= Set::<usize>::empty());
    }

    /// One more active state adds its own targets to a step.
    pub proof fn lemma_step_insert(self, active: Set<usize>, s: usize, b: u8)
        requires
            s < self.states.len(),
        ensures
            self.step(active.insert(s), b) == self.step(active, b).union(self.targets(s as int, b)),
    {
        let lhs = self.step(active.insert(s), b);
        let rhs = self.step(active, b).union(self.targets(s as int, b));
        assert forall|t: usize| lhs.contains(t) <==> rhs.contains(t) by {
            if lhs.contains(t) {
                let z = choose|z: usize|
                    active.insert(s).contains(z) && z < self.states.len() && #[trigger] self.targets(
                        z as int,
                        b,
                    ).contains(t);
                if z != s {
                    assert(active.contains(z) && self.targets(z as int, b).contains(t));
                }
            }
            if self.step(active, b).contains(t) {
                let z = choose|z: usize|
                    active.contains(z) && z < self.states.len() && #[trigger] self.targets(
                        z as int,
                        b,
                    ).contains(t);
                assert(active.insert(s).contains(z) && self.targets(z as int, b).contains(t));
            }
            if self.targets(s as int, b).contains(t) {
                assert(active.insert(s).contains(s));
            }
        }
        assert(lhs =~= rhs);
    }

    /// Running over a text and one more byte is a run and a step.
    pub proof fn lemma_run_push(self, active: Set<usize>, text: Seq<u8>, b: u8)
        ensures
            self.run(active, text.push(b)) == self.step(self.run(active, text), b),
    {
        assert(text.push(b).drop_last() =~= text);
    }

    /// Running over two texts in a row is running over both.
    pub proof fn lemma_run_concat(self, active: Set<usize>, u: Seq<u8>, v: Seq<u8>)
        ensures
            self.run(active, u + v) == self.run(self.run(active, u), v),
        decreases v.len(),
    {
        if v.len() == 0 {
            assert(u + v =~= u);
        } else {
            self.lemma_run_concat(active, u, v.drop_last());
            assert((u + v).drop_last() =~= u + v.drop_last());
        }
    }

    /// From no state a run leads nowhere.
    pub proof fn lemma_run_none(self, text: Seq<u8>)
        ensures
            self.run(Set::empty(), text) == Set::<usize>::empty(),
        decreases text.len(),
    {
        if text.len() > 0 {
            self.lemma_run_none(text.drop_last());
            self.lemma_step_none(text.last());
        }
    }

    /// One more active state adds its own pattern ends.
    pub proof fn lemma_ends_of_insert(self, active: Set<usize>, s: usize)
        requires
            s < self.states.len(),
        ensures
            self.ends_of(active.insert(s)) == self.ends_of(active).union(
                self.states[s as int].ends.to_set(),
            ),
    {
        let lhs = self.ends_of(active.insert(s));
        let rhs = self.ends_of(active).union(self.states[s as int].ends.to_set());
        assert forall|p: usize| lhs.contains(p) <==> rhs.contains(p) by {
            if lhs.contains(p) {
                let z = choose|z: usize|
                    active.insert(s).contains(z) && z < self.states.len()
                        && #[trigger] self.states[z as int].ends.contains(p);
                if z != s {
                    assert(active.contains(z) && self.states[z as int].ends.contains(p));
                }
            }
            if self.ends_of(active).contains(p) {
                let z = choose|z: usize|
                    active.contains(z) && z < self.states.len()
                        && #[trigger] self.states[z as int].ends.contains(p);
                assert(active.insert(s).contains(z) && self.states[z as int].ends.contains(p));
            }
            if self.states[s as int].ends.contains(p) {
                assert(active.insert(s).contains(s));
            }
        }
        assert(lhs =~= rhs);
    }

    /// No state, no pattern end.
    pub proof fn lemma_ends_of_none(self)
        ensures
            self.ends_of(Set::empty()) == Set::<usize>::empty(),
    {
        assert(self.ends_of(Set::empty()) =~= Set::<usize>::empty());
    }

    /// The pattern-ends list is ascending and holds the patterns that end in
    /// an active state, each a pattern of the dictionary.
    pub proof fn lemma_reported(self, active: Set<usize>)
        requires
            self.shaped(),
        ensures
            ascending(self.reported(active)),
            forall|p: usize| self.reported(active).contains(p) <==> self.ends_of(active).contains(p),
            forall|k: int|
                0 <= k < self.reported(active).len() ==> #[trigger] self.reported(active)[k]
                    < self.dict.len(),
    {
        lemma_listing(self.ends_of(active), self.dict.len());
        let r = self.reported(active);
        assert(r == listing(self.ends_of(active), self.dict.len()));
        assert(forall|x: usize| r.contains(x) <==> self.ends_of(active).contains(x) && x < self.dict.len());
        assert forall|p: usize| self.ends_of(active).contains(p) implies p < self.dict.len() by {
            let z = choose|z: usize|
                active.contains(z) && z < self.states.len() && #[trigger] self.states[z as int].ends.contains(
                    p,
                );
            let e = self.states[z as int].ends;
            let k = choose|k: int| 0 <= k < e.len() && e[k] == p;
            assert(self.states[z as int].ends[k] < self.dict.len());
        }
        assert forall|k: int| 0 <= k < r.len() implies #[trigger] r[k] < self.dict.len() by {
            assert(r.contains(r[k]));
        }
    }

    /// An ascending sequence of the patterns that end in an active state
    /// is the pattern-ends list.
    pub proof fn lemma_reported_is(self, active: Set<usize>, q: Seq<usize>)
        requires
            self.shaped(),
            ascending(q),
            q.to_set() == self.ends_of(active),
        ensures
            q == self.reported(active),
    {
        self.lemma_reported(active);
        assert forall|x: usize| q.contains(x) <==> self.ends_of(active).contains(x) && x
            < self.dict.len() by {
            assert(q.contains(x) <==> q.to_set().contains(x));
            if self.ends_of(active).contains(x) {
                assert(self.reported(active).contains(x));
                let k = choose|k: int|
                    0 <= k < self.reported(active).len() && self.reported(active)[k] == x;
                assert(self.reported(active)[k] < self.dict.len());
            }
        }
        lemma_listing_unique(q, self.ends_of(active), self.dict.len());
    }

    /// This automaton with a loop on the start state over every byte.
    pub open spec fn with_prefix_loop(self) -> NfaModel {
        NfaModel {
            states: self.states.update(
                START as int,
                looped(self.states[START as int], START),
            ),
            alphabet: all_bytes(),
            dict: self.dict,
        }
    }

    /// This automaton with a loop over every byte on each state that ends
    /// a pattern.
    pub open spec fn with_postfix_loops(self) -> NfaModel {
        NfaModel {
            states: Seq::new(
                self.states.len(),
                |s: int|
                    if self.accepting(s) {
                        looped(self.states[s], s as usize)
                    } else {
                        self.states[s]
                    },
            ),
            alphabet: all_bytes(),
            dict: self.dict,
        }
    }

    /// A loop on the start state keeps the automaton well-formed.
    pub proof fn lemma_prefix_loop_wf(self)
        requires
            self.wf(),
        ensures
            self.with_prefix_loop().wf(),
    {
        let m = self.with_prefix_loop();
        let rank = self.the_rank();
        lemma_all_bytes();
        assert forall|s: int, b: u8, t: usize|
            0 <= s < m.states.len() && #[trigger] m.targets(s, b).contains(t) implies t
            < m.states.len() && m.alphabet.contains(b) && rank[t as int] <= rank[s] + 1 && (s
            == STUCK ==> t == STUCK) by {
            if s == START && t == START {
            } else {
                assert(self.targets(s, b).contains(t));
            }
        }
        assert forall|s: int| 0 <= s < m.states.len() implies ascending(
            (#[trigger] m.states[s]).ends,
        ) && m.states[s].targets.len() == 256 by {
            assert(m.states[s].ends == self.states[s].ends);
            assert(self.states[s].targets.len() == 256);
        }
        assert forall|s: int, k: int|
            0 <= s < m.states.len() && 0 <= k < m.states[s].ends.len() implies (
        #[trigger] m.states[s].ends[k]) < m.dict.len() && m.dict[m.states[s].ends[k] as int].len()
            <= rank[s] by {
            assert(m.states[s].ends == self.states[s].ends);
            assert(self.states[s].ends[k] < self.dict.len());
        }
        assert(m.shaped());
        assert(is_rank(m, rank));
    }

    /// A loop on the start state keeps the shape of the automaton.
    pub proof fn lemma_prefix_loop_wf_shape(self)
        requires
            self.shaped(),
        ensures
            self.with_prefix_loop().shaped(),
    {
        let m = self.with_prefix_loop();
        lemma_all_bytes();
        assert forall|s: int, b: u8, t: usize|
            0 <= s < m.states.len() && #[trigger] m.targets(s, b).contains(t) implies t
            < m.states.len() && m.alphabet.contains(b) && (s == STUCK ==> t == STUCK) by {
            if s == START && t == START {
            } else {
                assert(self.targets(s, b).contains(t));
            }
        }
        assert forall|s: int| 0 <= s < m.states.len() implies ascending(
            (#[trigger] m.states[s]).ends,
        ) && m.states[s].targets.len() == 256 by {
            assert(m.states[s].ends == self.states[s].ends);
            assert(self.states[s].targets.len() == 256);
        }
        assert forall|s: int, k: int|
            0 <= s < m.states.len() && 0 <= k < m.states[s].ends.len() implies (
        #[trigger] m.states[s].ends[k]) < m.dict.len() by {
            assert(m.states[s].ends == self.states[s].ends);
            assert(self.states[s].ends[k] < self.dict.len());
        }
    }

    /// Loops on the states that end a pattern keep the automaton
    /// well-formed.
    pub proof fn lemma_postfix_loops_wf(self)
        requires
            self.wf(),
        ensures
            self.with_postfix_loops().wf(),
    {
        let m = self.with_postfix_loops();
        let rank = self.the_rank();
        lemma_all_bytes();
        assert forall|s: int, b: u8, t: usize|
            0 <= s < m.states.len() && #[trigger] m.targets(s, b).contains(t) implies t
            < m.states.len() && m.alphabet.contains(b) && rank[t as int] <= rank[s] + 1 && (s
            == STUCK ==> t == STUCK) by {
            if self.accepting(s) && t == s {
            } else {
                assert(self.targets(s, b).contains(t));
            }
        }
        assert forall|s: int| 0 <= s < m.states.len() implies ascending(
            (#[trigger] m.states[s]).ends,
        ) && m.states[s].targets.len() == 256 by {
            assert(m.states[s].ends == self.states[s].ends);
            assert(self.states[s].targets.len() == 256);
        }
        assert forall|s: int, k: int|
            0 <= s < m.states.len() && 0 <= k < m.states[s].ends.len() implies (
        #[trigger] m.states[s].ends[k]) < m.dict.len() && m.dict[m.states[s].ends[k] as int].len()
            <= rank[s] by {
            assert(m.states[s].ends == self.states[s].ends);
            assert(self.states[s].ends[k] < self.dict.len());
        }
        assert(m.shaped());
        assert(is_rank(m, rank));
    }

    /// Before any byte only the start state is active, at rank zero.
    pub proof fn lemma_within_start(self)
        requires
            self.wf(),
        ensures
            self.within(set![START], 0),
    {
    }

    /// A step raises the rank by one at most.
    pub proof fn lemma_within_step(self, active: Set<usize>, n: nat, b: u8)
        requires
            self.wf(),
            self.within(active, n),
        ensures
            self.within(self.step(active, b), n + 1),
    {
        assert forall|t: usize|
            self.step(active, b).contains(t) && t < self.states.len() implies self.the_rank()[t as int]
            <= n + 1 by {
            let s = choose|s: usize|
                active.contains(s) && s < self.states.len() && #[trigger] self.targets(
                    s as int,
                    b,
                ).contains(t);
            assert(self.targets(s as int, b).contains(t));
        }
    }

    /// A pattern that ends in a state of rank `n` at most has `n` bytes at
    /// most.
    pub proof fn lemma_within_reported(self, active: Set<usize>, n: nat, k: int)
        requires
            self.wf(),
            self.within(active, n),
            0 <= k < self.reported(active).len(),
        ensures
            self.reported(active)[k] < self.dict.len(),
            self.dict[self.reported(active)[k] as int].len() <= n,
    {
        self.lemma_reported(active);
        let p = self.reported(active)[k];
        assert(self.reported(active).contains(p));
        assert(self.ends_of(active).contains(p));
        let z = choose|z: usize|
            active.contains(z) && z < self.states.len() && #[trigger] self.states[z as int].ends.contains(
                p,
            );
        let e = self.states[z as int].ends;
        let i = choose|i: int| 0 <= i < e.len() && e[i] == p;
        assert(self.dict[self.states[z as int].ends[i] as int].len() <= self.the_rank()[z as int]);
    }

}

/// All 256 bytes in ascending order.
pub open spec fn all_bytes() -> Seq<u8> {
    Seq::new(256, |b: int| b as u8)
}

/// The list of all bytes is ascending and holds every byte.
pub proof fn lemma_all_bytes()
    ensures
        all_bytes().len() == 256,
        forall|i: int, j: int| 0 <= i < j < all_bytes().len() ==> all_bytes()[i] < all_bytes()[j],
        forall|b: u8| all_bytes().contains(b),
{
    assert forall|b: u8| all_bytes().contains(b) by {
        assert(all_bytes()[b as int] == b);
    }
}

/// State `st` with one more transition on every byte, to state `s`.
pub open spec fn looped(st: StateModel, s: usize) -> StateModel {
    StateModel { targets: Seq::new(256, |b: int| st.targets[b].insert(s)), ends: st.ends }
}

/// A state without transitions that ends no pattern.
pub open spec fn blank_state() -> StateModel {
    StateModel { targets: Seq::new(256, |b: int| Set::<usize>::empty()), ends: Seq::empty() }
}

} // verus!
