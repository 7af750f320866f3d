//! Multi-pattern search over bytes with finite automata: a nondeterministic
//! automaton built from a dictionary, its powerset construction, and two
//! table-driven deterministic forms.

use vstd::prelude::*;

pub mod automaton;
pub mod depth;
pub mod dfa;
pub mod edges;
pub mod finals;
pub mod laws;
pub mod loops;
pub mod model;
pub mod nfa;
pub mod ordset;
pub mod powerset;
pub mod scc;
pub mod subsets;
pub mod table;
pub mod trie;

verus! {

/// Index of the initial state of every automaton.
pub const START: usize = 0;

/// Index of the sink state of every automaton.
pub const STUCK: usize = 1;

} // verus!
