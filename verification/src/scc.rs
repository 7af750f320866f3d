//! The bookkeeping of a search for strongly connected components: the order
//! in which states were met, the earliest state each can reach, and the
//! stack of states that are not yet assigned to a component.

use vstd::prelude::*;
use std::collections::HashMap;

verus! {

broadcast use vstd::std_specs::hash::group_hash_axioms;

/// The bookkeeping as plain values.
pub struct SccModel {
    /// How many states have been met.
    pub count: usize,
    /// For each state its position in the order of meeting, or `usize::MAX`.
    pub index: Seq<usize>,
    /// For each state the least position that it is known to reach.
    pub lowlink: Seq<usize>,
    /// The states that were met, in that order, as far as they are not yet
    /// in a component.
    pub stack: Seq<usize>,
    /// For each state that was put on the stack, where it was put.
    pub on_stack: Map<usize, usize>,
    /// The components that were found.
    pub sccs: Seq<Seq<usize>>,
}

/// The bookkeeping of a search for strongly connected components.
pub struct SccMutState {
    count: usize,
    index: Vec<usize>,
    lowlink: Vec<usize>,
    scc_stack: Vec<usize>,
    scc_set: HashMap<usize, usize>,
    sccs: Vec<Vec<usize>>,
}

impl View for SccMutState {
    type V = SccModel;

    closed spec fn view(&self) -> SccModel {
        SccModel {
            count: self.count,
            index: self.index@,
            lowlink: self.lowlink@,
            stack: self.scc_stack@,
            on_stack: self.scc_set@,
            sccs: Seq::new(self.sccs@.len(), |i: int| self.sccs@[i]@),
        }
    }
}

/// The position of the first item at or after `k` that was not met yet, or
/// the number of items where every item was met.
pub open spec fn first_unvisited(index: Seq<usize>, items: Seq<usize>, k: int) -> int
    decreases items.len() - k,
{
    if k < 0 || k >= items.len() {
        items.len() as int
    } else if index[items[k] as int] == usize::MAX {
        k
    } else {
        first_unvisited(index, items, k + 1)
    }
}

/// The low links after state `from` has looked at the items from position
/// `k` up to position `e`: each item on the stack that reaches further back
/// than `from` hands its low link to `from`.
pub open spec fn relaxed(
    lowlink: Seq<usize>,
    on_stack: Map<usize, usize>,
    from: usize,
    items: Seq<usize>,
    k: int,
    e: int,
) -> Seq<usize>
    decreases e - k,
{
    if e <= k {
        lowlink
    } else {
        let before = relaxed(lowlink, on_stack, from, items, k, e - 1);
        let to = items[e - 1];
        if on_stack.contains_key(to) && before[to as int] < before[from as int] {
            before.update(from as int, before[to as int])
        } else {
            before
        }
    }
}

/// Whether the items of `positions` can be removed from `stack` one after
/// the other, each by its position at that moment.
pub open spec fn removable(stack: Seq<usize>, positions: Seq<usize>) -> bool
    decreases positions.len(),
{
    positions.len() == 0 || (positions[0] < stack.len() && removable(
        stack.remove(positions[0] as int),
        positions.drop_first(),
    ))
}

/// What is left of `stack` after the items at `positions` were removed one
/// after the other.
pub open spec fn without(stack: Seq<usize>, positions: Seq<usize>) -> Seq<usize>
    decreases positions.len(),
{
    if positions.len() == 0 {
        stack
    } else {
        without(stack.remove(positions[0] as int), positions.drop_first())
    }
}

impl SccModel {
    /// Whether a component begins with state `from`: it reaches no state
    /// that was met before it.
    pub open spec fn begins(self, from: usize) -> bool {
        self.index[from as int] == self.lowlink[from as int]
    }

    /// The part of the stack that stays when the component of `from` is
    /// taken off: what lies before the position that the stack holds at
    /// `from`.
    pub open spec fn kept(self, from: usize) -> Seq<usize> {
        self.stack.take(self.stack[from as int] as int)
    }

    /// The part of the stack that is taken off as the component of `from`.
    pub open spec fn component(self, from: usize) -> Seq<usize> {
        self.stack.skip(self.stack[from as int] as int)
    }

    /// Whether the component of `from` can be closed: the stack holds a
    /// position of its own at `from`, and the states of the component are
    /// positions of what stays, one after the other.
    pub open spec fn can_close(self, from: usize) -> bool {
        &&& from < self.stack.len()
        &&& self.stack[from as int] <= self.stack.len()
        &&& removable(self.kept(from), self.component(from))
    }
}

impl SccMutState {
    /// Whether the bookkeeping covers the same states in both tables.
    pub open spec fn wf(&self) -> bool {
        self@.index.len() == self@.lowlink.len()
    }

    /// The bookkeeping for a search over `states` states, none of them met.
    pub fn new(states: usize) -> (state: Self)
        ensures
            state.wf(),
            state@.count == 0,
            state@.index == Seq::new(states as nat, |i: int| usize::MAX),
            state@.lowlink == Seq::new(states as nat, |i: int| usize::MAX),
            state@.stack == Seq::<usize>::empty(),
            state@.on_stack == Map::<usize, usize>::empty(),
            state@.sccs == Seq::<Seq<usize>>::empty(),
    {
        let mut index: Vec<usize> = Vec::new();
        let mut lowlink: Vec<usize> = Vec::new();
        let mut i: usize = 0;
        while i < states
            invariant
                i <= states,
                index@.len() == i,
                lowlink@.len() == i,
                forall|k: int| 0 <= k < i ==> index@[k] == usize::MAX && lowlink@[k] == usize::MAX,
            decreases states - i,
        {
            index.push(usize::MAX);
            lowlink.push(usize::MAX);
            i += 1;
        }
        let state = SccMutState {
            count: 0,
            index,
            lowlink,
            scc_stack: Vec::new(),
            scc_set: HashMap::new(),
            sccs: Vec::new(),
        };
        proof {
            assert(state@.index =~= Seq::new(states as nat, |i: int| usize::MAX));
            assert(state@.lowlink =~= Seq::new(states as nat, |i: int| usize::MAX));
            assert(state@.sccs =~= Seq::<Seq<usize>>::empty());
        }
        state
    }

    /// Whether state `st_ref` was met.
    pub fn visited(&self, st_ref: usize) -> (r: bool)
        requires
            st_ref < self@.index.len(),
        ensures
            r == (self@.index[st_ref as int] != usize::MAX),
    {
        self.index[st_ref] != usize::MAX
    }

    /// Whether state `st_ref` reaches no state that was met before it, so
    /// that a component begins with it.
    pub fn scc_seed(&self, st_ref: usize) -> (r: bool)
        requires
            st_ref < self@.index.len(),
            st_ref < self@.lowlink.len(),
        ensures
            r == (self@.index[st_ref as int] == self@.lowlink[st_ref as int]),
    {
        self.index[st_ref] == self.lowlink[st_ref]
    }

    /// Meets state `st_ref`: it gets the next position, reaches itself, and
    /// goes on the stack.
    pub fn init(&mut self, st_ref: usize)
        requires
            st_ref < old(self)@.index.len(),
            st_ref < old(self)@.lowlink.len(),
            old(self)@.count < usize::MAX,
        ensures
            final(self)@.count == old(self)@.count + 1,
            final(self)@.index == old(self)@.index.update(st_ref as int, old(self)@.count),
            final(self)@.lowlink == old(self)@.lowlink.update(st_ref as int, old(self)@.count),
            final(self)@.on_stack == old(self)@.on_stack.insert(
                st_ref,
                old(self)@.stack.len() as usize,
            ),
            final(self)@.stack == old(self)@.stack.push(st_ref),
            final(self)@.sccs == old(self)@.sccs,
    {
        self.index[st_ref] = self.count;
        self.lowlink[st_ref] = self.count;
        self.count += 1;
        self.scc_set.insert(st_ref, self.scc_stack.len());
        self.scc_stack.push(st_ref);
    }

    /// Lets state `from` reach what state `to` reaches, where that is
    /// further back.
    pub fn update(&mut self, from: usize, to: usize)
        requires
            from < old(self)@.lowlink.len(),
            to < old(self)@.lowlink.len(),
        ensures
            final(self)@.lowlink == old(self)@.lowlink.update(
                from as int,
                if old(self)@.lowlink[to as int] < old(self)@.lowlink[from as int] {
                    old(self)@.lowlink[to as int]
                } else {
                    old(self)@.lowlink[from as int]
                },
            ),
            final(self)@.count == old(self)@.count,
            final(self)@.index == old(self)@.index,
            final(self)@.stack == old(self)@.stack,
            final(self)@.on_stack == old(self)@.on_stack,
            final(self)@.sccs == old(self)@.sccs,
    {
        let low = if self.lowlink[to] < self.lowlink[from] {
            self.lowlink[to]
        } else {
            self.lowlink[from]
        };
        self.lowlink[from] = low;
    }

    /// The next successor of `from` that was not met yet, among those at
    /// `cursor` and after it; the cursor moves past it.  The successors that
    /// are passed over on the way, if they are on the stack, hand their low
    /// links to `from`.  `None` where every successor was met: then the
    /// cursor stands at the end.
    pub fn next_state(&mut self, from: usize, successors: &Vec<usize>, cursor: &mut usize) -> (r:
        Option<usize>)
        requires
            old(self).wf(),
            from < old(self)@.lowlink.len(),
            *old(cursor) <= successors@.len(),
            forall|k: int|
                *old(cursor) <= k < successors@.len() && k <= first_unvisited(
                    old(self)@.index,
                    successors@,
                    *old(cursor) as int,
                ) ==> #[trigger] successors@[k] < old(self)@.index.len(),
        ensures
            final(self).wf(),
            final(self)@.count == old(self)@.count,
            final(self)@.index == old(self)@.index,
            final(self)@.stack == old(self)@.stack,
            final(self)@.on_stack == old(self)@.on_stack,
            final(self)@.sccs == old(self)@.sccs,
            final(self)@.lowlink == relaxed(
                old(self)@.lowlink,
                old(self)@.on_stack,
                from,
                successors@,
                *old(cursor) as int,
                first_unvisited(old(self)@.index, successors@, *old(cursor) as int),
            ),
            match r {
                Some(to) => first_unvisited(old(self)@.index, successors@, *old(cursor) as int)
                    < successors@.len() && to == successors@[first_unvisited(
                    old(self)@.index,
                    successors@,
                    *old(cursor) as int,
                )] && *final(cursor) == first_unvisited(
                    old(self)@.index,
                    successors@,
                    *old(cursor) as int,
                ) + 1,
                None => first_unvisited(old(self)@.index, successors@, *old(cursor) as int)
                    == successors@.len() && *final(cursor) == successors@.len(),
            },
    {
        let ghost begin = *cursor as int;
        let ghost before = self@;
        let ghost goal = first_unvisited(before.index, successors@, begin);
        while *cursor < successors.len()
            invariant
                begin <= *cursor <= successors@.len(),
                self.wf(),
                from < self@.lowlink.len(),
                before == old(self)@,
                begin == *old(cursor),
                goal == first_unvisited(before.index, successors@, begin),
                goal == first_unvisited(before.index, successors@, *cursor as int),
                forall|k: int|
                    begin <= k < successors@.len() && k <= goal ==> #[trigger] successors@[k]
                        < before.index.len(),
                self@.count == before.count,
                self@.index == before.index,
                self@.stack == before.stack,
                self@.on_stack == before.on_stack,
                self@.sccs == before.sccs,
                self@.lowlink == relaxed(
                    before.lowlink,
                    before.on_stack,
                    from,
                    successors@,
                    begin,
                    *cursor as int,
                ),
            decreases successors@.len() - *cursor,
        {
            let to = successors[*cursor];
            proof {
                lemma_first_unvisited(before.index, successors@, *cursor as int);
            }
            *cursor = *cursor + 1;
            if !self.visited(to) {
                return Some(to);
            } else if self.scc_set.contains_key(&to) {
                self.update(from, to);
            }
        }
        None
    }

    /// Closes the component that begins with `from`, if one does: the part
    /// of the stack from the position that the stack holds at `from` is
    /// taken off as a component, and then for each of its states the item at
    /// the position of that number leaves the stack.
    pub fn construct_scc(&mut self, from: usize)
        requires
            from < old(self)@.index.len(),
            from < old(self)@.lowlink.len(),
            old(self)@.begins(from) ==> old(self)@.can_close(from),
        ensures
            final(self)@.count == old(self)@.count,
            final(self)@.index == old(self)@.index,
            final(self)@.lowlink == old(self)@.lowlink,
            final(self)@.on_stack == old(self)@.on_stack,
            !old(self)@.begins(from) ==> final(self)@ == old(self)@,
            old(self)@.begins(from) ==> final(self)@.stack == without(
                old(self)@.kept(from),
                old(self)@.component(from),
            ) && final(self)@.sccs == old(self)@.sccs.push(old(self)@.component(from)),
    {
        if self.scc_seed(from) {
            let ghost before = self@;
            let offset = self.scc_stack[from];
            let scc = self.scc_stack.split_off(offset);
            let ghost kept = before.stack.take(offset as int);
            let ghost left = before.stack.skip(offset as int);
            proof {
                assert(self.scc_stack@ =~= kept);
                assert(scc@ =~= left);
                assert(left.skip(0) =~= left);
                assert(kept == before.kept(from));
                assert(left == before.component(from));
            }
            let mut k: usize = 0;
            while k < scc.len()
                invariant
                    k <= scc.len(),
                    scc@ == left,
                    removable(self.scc_stack@, left.skip(k as int)),
                    without(self.scc_stack@, left.skip(k as int)) == without(kept, left),
                    self.count == before.count,
                    self.index@ == before.index,
                    self.lowlink@ == before.lowlink,
                    self.scc_set@ == before.on_stack,
                    self@.sccs == before.sccs,
                decreases scc.len() - k,
            {
                let st_ref = scc[k];
                proof {
                    assert(left.skip(k as int)[0] == st_ref);
                    assert(left.skip(k as int).drop_first() =~= left.skip(k as int + 1));
                }
                self.scc_stack.remove(st_ref);
                k += 1;
            }
            proof {
                assert(left.skip(left.len() as int) =~= Seq::<usize>::empty());
            }
            self.sccs.push(scc);
            proof {
                assert(self@.sccs =~= before.sccs.push(left));
            }
        }
    }

    /// The components that were found.
    pub fn sccs(self) -> (r: Vec<Vec<usize>>)
        ensures
            Seq::new(r@.len(), |i: int| r@[i]@) == self@.sccs,
    {
        self.sccs
    }

    /// For each state the least position that it reaches.
    pub fn sccs_mapping(self) -> (r: Vec<usize>)
        ensures
            r@ == self@.lowlink,
    {
        self.lowlink
    }

    /// The components that were found, and for each state the least
    /// position that it reaches.
    pub fn sccs_and_mapping(self) -> (r: (Vec<Vec<usize>>, Vec<usize>))
        ensures
            Seq::new(r.0@.len(), |i: int| r.0@[i]@) == self@.sccs,
            r.1@ == self@.lowlink,
    {
        (self.sccs, self.lowlink)
    }
}

/// Where the first unvisited item is, seen from one position on.
pub proof fn lemma_first_unvisited(index: Seq<usize>, items: Seq<usize>, k: int)
    requires
        0 <= k < items.len(),
    ensures
        first_unvisited(index, items, k) == if index[items[k] as int] == usize::MAX {
            k
        } else {
            first_unvisited(index, items, k + 1)
        },
        k <= first_unvisited(index, items, k) <= items.len(),
    decreases items.len() - k,
{
    if index[items[k] as int] != usize::MAX && k + 1 < items.len() {
        lemma_first_unvisited(index, items, k + 1);
    }
}

} // verus!
