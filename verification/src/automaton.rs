//! What the search asks of an automaton, and the search itself: an iterator
//! over the non-overlapping matches in a text.

use vstd::prelude::*;
use crate::model::NfaModel;
use crate::{START, STUCK};

verus! {

/// One occurrence of a pattern in the searched text.
#[derive(Copy, Clone, Debug, Hash, PartialEq, Eq, Structural)]
pub struct Match {
    /// The number of the pattern in the dictionary.
    pub pattern_no: usize,
    /// The offset of the first byte of the occurrence.
    pub start: usize,
    /// The offset just past its last byte.
    pub end: usize,
}

/// An automaton that can be driven over a text one byte at a time.
///
/// A traversal state stands for a set of active states of the automaton's
/// model; a deterministic automaton has one active state at a time.
pub trait Automaton: Sized {
    /// The traversal state.
    type State;

    /// The automaton as a mathematical object.
    spec fn model(&self) -> NfaModel;

    /// Whether the automaton is well-formed.
    spec fn valid(&self) -> bool;

    /// Whether `state` is a traversal state of this automaton.
    spec fn valid_state(&self, state: &Self::State) -> bool;

    /// The states of the model that `state` stands for.
    spec fn active(&self, state: &Self::State) -> Set<usize>;

    /// A valid automaton has a well-formed model.
    proof fn lemma_valid(&self)
        requires
            self.valid(),
        ensures
            self.model().wf(),
    ;

    /// The initial traversal state.
    fn start_state(&self) -> (state: Self::State)
        requires
            self.valid(),
        ensures
            self.valid_state(&state),
            self.active(&state) == set![START],
    ;

    /// The sink traversal state.
    fn stuck_state(&self) -> (state: Self::State)
        requires
            self.valid(),
        ensures
            self.valid_state(&state),
            self.active(&state) == set![STUCK],
    ;

    /// The traversal state after one more byte.
    fn next_state(&self, state: &Self::State, input: &u8) -> (next: Self::State)
        requires
            self.valid(),
            self.valid_state(state),
        ensures
            self.valid_state(&next),
            self.active(&next) == self.model().step(self.active(state), *input),
    ;

    /// Whether `state` has an entry `patt_no_offset` in its pattern-ends
    /// list.
    fn has_match(&self, state: &Self::State, patt_no_offset: usize) -> (r: bool)
        requires
            self.valid(),
            self.valid_state(state),
        ensures
            r == (patt_no_offset < self.model().reported(self.active(state)).len()),
    ;

    /// The match for entry `patt_no_offset` of the pattern-ends list of
    /// `state`, for a text that ends at `text_offset`.
    fn get_match(&self, state: &Self::State, patt_no_offset: usize, text_offset: usize) -> (m:
        Match)
        requires
            self.valid(),
            self.valid_state(state),
            patt_no_offset < self.model().reported(self.active(state)).len(),
            self.model().dict[self.model().reported(
                self.active(state),
            )[patt_no_offset as int] as int].len() <= text_offset,
        ensures
            m == match_of(
                self.model(),
                self.model().reported(self.active(state))[patt_no_offset as int],
                text_offset as int,
            ),
    ;

    /// An iterator over the non-overlapping matches in `input`.
    fn find<'i, 'a>(&'a self, input: &'i [u8]) -> (matches: Matches<'i, 'a, Self>)
        requires
            self.valid(),
        ensures
            matches.aut == self,
            matches.input == input,
            matches.offset == 0,
            self.valid_state(&matches.state),
            self.active(&matches.state) == set![START],
    {
        Matches { aut: self, input, offset: 0, state: self.start_state() }
    }
}

/// The match of pattern `p` in a text that ends at offset `end`.
pub open spec fn match_of(m: NfaModel, p: usize, end: int) -> Match {
    Match { pattern_no: p, start: (end - m.dict[p as int].len()) as usize, end: end as usize }
}

/// The end of the first match after offset `e`, for a search that started
/// afresh at offset `anchor`: the least offset beyond `e` at which the
/// automaton reports a pattern for the text from `anchor` on.
pub open spec fn first_end(m: NfaModel, input: Seq<u8>, anchor: int, e: int) -> Option<int>
    decreases input.len() - e,
{
    if anchor < 0 || e < anchor || e >= input.len() {
        None
    } else if m.apply(input.subrange(anchor, e + 1)).len() > 0 {
        Some(e + 1)
    } else {
        first_end(m, input, anchor, e + 1)
    }
}

/// The match that ends at `end`, for a search that started afresh at
/// `anchor`: of the patterns that end there the one with the least number.
pub open spec fn match_at(m: NfaModel, input: Seq<u8>, anchor: int, end: int) -> Match {
    match_of(m, m.apply(input.subrange(anchor, end))[0], end)
}

/// The end of the first match lies beyond the offset and inside the text.
pub proof fn lemma_first_end(m: NfaModel, input: Seq<u8>, anchor: int, e: int)
    ensures
        match first_end(m, input, anchor, e) {
            Some(end) => e < end <= input.len() && 0 <= anchor <= e && m.apply(
                input.subrange(anchor, end),
            ).len() > 0,
            None => true,
        },
    decreases input.len() - e,
{
    if anchor < 0 || e < anchor || e >= input.len() {
    } else if m.apply(input.subrange(anchor, e + 1)).len() > 0 {
    } else {
        lemma_first_end(m, input, anchor, e + 1);
    }
}

/// The non-overlapping matches in `input` from offset `anchor` on: the
/// first match, then those of a search that starts afresh where it ended.
pub open spec fn matches_from(m: NfaModel, input: Seq<u8>, anchor: int) -> Seq<Match>
    decreases input.len() - anchor,
{
    match first_end(m, input, anchor, anchor) {
        None => Seq::empty(),
        Some(end) => if anchor < end <= input.len() {
            seq![match_at(m, input, anchor, end)] + matches_from(m, input, end)
        } else {
            Seq::empty()
        },
    }
}

/// An iterator over the non-overlapping matches of an automaton in a text.
pub struct Matches<'i, 'a, A: Automaton> {
    /// The automaton that searches.
    pub aut: &'a A,
    /// The text.
    pub input: &'i [u8],
    /// The offset from which the search goes on.
    pub offset: usize,
    /// The traversal state at that offset.
    pub state: A::State,
}

impl<'i, 'a, A: Automaton> Matches<'i, 'a, A> {
    /// Between two matches the search stands at an offset of the text, in
    /// the start state of a valid automaton.
    pub open spec fn wf(&self) -> bool {
        &&& self.aut.valid()
        &&& self.aut.valid_state(&self.state)
        &&& self.aut.active(&self.state) == set![START]
        &&& self.offset <= self.input@.len()
    }

    /// The matches that are still to come.
    pub open spec fn remaining(&self) -> Seq<Match> {
        matches_from(self.aut.model(), self.input@, self.offset as int)
    }

    /// The next match, if there is one: the search goes on from its end, in
    /// the start state.
    pub fn next(&mut self) -> (r: Option<Match>)
        requires
            old(self).wf(),
        ensures
            final(self).wf(),
            final(self).aut == old(self).aut,
            final(self).input == old(self).input,
            match first_end(
                old(self).aut.model(),
                old(self).input@,
                old(self).offset as int,
                old(self).offset as int,
            ) {
                Some(end) => r == Some(
                    match_at(old(self).aut.model(), old(self).input@, old(self).offset as int, end),
                ) && final(self).offset == end,
                None => r.is_none() && final(self).offset == old(self).input@.len(),
            },
            match r {
                Some(m) => old(self).remaining() == seq![m] + final(self).remaining(),
                None => old(self).remaining() == Seq::<Match>::empty() && final(self).remaining()
                    == Seq::<Match>::empty(),
            },
    {
        let ghost anchor = self.offset as int;
        let ghost model = self.aut.model();
        let ghost text = self.input@;
        let mut offset = self.offset;
        proof {
            self.aut.lemma_valid();
            model.lemma_within_start();
            assert(text.subrange(anchor, anchor) =~= Seq::<u8>::empty());
        }
        while offset < self.input.len()
            invariant
                self.aut == old(self).aut,
                self.input == old(self).input,
                anchor == old(self).offset,
                model == self.aut.model(),
                text == self.input@,
                model.wf(),
                self.aut.valid(),
                self.aut.valid_state(&self.state),
                0 <= anchor <= offset <= text.len(),
                self.aut.active(&self.state) == model.active_after(
                    text.subrange(anchor, offset as int),
                ),
                model.within(self.aut.active(&self.state), (offset - anchor) as nat),
                first_end(model, text, anchor, anchor) == first_end(
                    model,
                    text,
                    anchor,
                    offset as int,
                ),
            decreases text.len() - offset,
        {
            let ghost before = self.aut.active(&self.state);
            let next = self.aut.next_state(&self.state, &self.input[offset]);
            self.state = next;
            proof {
                let b = text[offset as int];
                assert(text.subrange(anchor, offset + 1) =~= text.subrange(
                    anchor,
                    offset as int,
                ).push(b));
                model.lemma_run_push(set![START], text.subrange(anchor, offset as int), b);
                model.lemma_within_step(before, (offset - anchor) as nat, b);
                assert(self.aut.active(&self.state) == model.active_after(
                    text.subrange(anchor, offset + 1),
                ));
            }
            offset += 1;
            let found = self.aut.has_match(&self.state, 0);
            proof {
                let seen = model.apply(text.subrange(anchor, offset as int));
                assert(seen == model.reported(self.aut.active(&self.state)));
                assert(found == (seen.len() > 0));
                assert(first_end(model, text, anchor, offset - 1) == if found {
                    Some(offset as int)
                } else {
                    first_end(model, text, anchor, offset as int)
                });
            }
            if found {
                proof {
                    model.lemma_within_reported(
                        self.aut.active(&self.state),
                        (offset - anchor) as nat,
                        0,
                    );
                }
                let m = self.aut.get_match(&self.state, 0, offset);
                self.offset = offset;
                self.state = self.aut.start_state();
                proof {
                    assert(first_end(model, text, anchor, anchor) == Some(offset as int));
                    assert(m == match_at(model, text, anchor, offset as int));
                    assert(old(self).remaining() == seq![m] + self.remaining());
                }
                return Some(m);
            }
        }
        self.offset = offset;
        self.state = self.aut.start_state();
        proof {
            assert(first_end(model, text, offset as int, offset as int).is_none());
        }
        None
    }

    /// The number of matches that are still to come.
    pub fn count(self) -> (n: usize)
        requires
            self.wf(),
        ensures
            n == self.remaining().len(),
    {
        let mut rest = self;
        let mut n: usize = 0;
        loop
            invariant
                rest.wf(),
                n <= rest.offset,
                self.remaining().len() == n + rest.remaining().len(),
            decreases rest.input@.len() - rest.offset + rest.remaining().len(),
        {
            let ghost at = rest.offset as int;
            proof {
                lemma_first_end(rest.aut.model(), rest.input@, at, at);
            }
            match rest.next() {
                Some(_) => {
                    n += 1;
                },
                None => {
                    return n;
                },
            }
        }
    }
}

} // verus!
