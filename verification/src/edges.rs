//! What a drawing of an automaton needs to know of it: the transitions that
//! spell the patterns, the bytes that lead from one state to another, and
//! the runs of adjacent bytes among them.

use vstd::prelude::*;
use crate::model::NfaModel;
use crate::nfa::NFA;
use crate::ordset::{lemma_listing_unique, listing};
use crate::START;

verus! {

/// The least state that state `s` leads to on byte `b`, if it leads to any.
pub open spec fn least_target(m: NfaModel, s: usize, b: u8) -> Option<usize> {
    let all = listing(m.targets(s as int, b), m.states.len());
    if all.len() > 0 {
        Some(all[0])
    } else {
        None
    }
}

/// The transitions that `text` takes from state `cur`, each to the least
/// state that its byte leads to; a byte that leads nowhere is passed over.
pub open spec fn spelled(m: NfaModel, cur: usize, text: Seq<u8>) -> Seq<(usize, usize)>
    decreases text.len(),
{
    if text.len() == 0 {
        Seq::empty()
    } else {
        match least_target(m, cur, text[0]) {
            Some(t) => seq![(cur, t)] + spelled(m, t, text.drop_first()),
            None => spelled(m, cur, text.drop_first()),
        }
    }
}

/// The transitions that the first `k` patterns take from the start state,
/// pattern after pattern.
pub open spec fn spelled_upto(m: NfaModel, k: int) -> Seq<(usize, usize)>
    decreases k,
{
    if k <= 0 {
        Seq::empty()
    } else {
        spelled_upto(m, k - 1) + spelled(m, START, m.dict[k - 1])
    }
}

/// The runs of adjacent bytes in `bytes` from position `k` on that are
/// followed by a gap, where the run at hand began with `start`.
pub open spec fn runs_before_gaps(bytes: Seq<u8>, k: int, start: u8) -> Seq<(u8, u8)>
    decreases bytes.len() - k,
{
    if k < 1 || k >= bytes.len() {
        Seq::empty()
    } else if bytes[k] - 1 != bytes[k - 1] {
        seq![(start, bytes[k - 1])] + runs_before_gaps(bytes, k + 1, bytes[k])
    } else {
        runs_before_gaps(bytes, k + 1, start)
    }
}

/// The runs of adjacent bytes in the ascending list `bytes`, as pairs of
/// their first and last byte, but for the last run: a run is listed where a
/// gap follows it.
pub fn runs(bytes: &Vec<u8>) -> (r: Vec<(u8, u8)>)
    requires
        bytes@.len() > 0,
        forall|i: int, j: int| 0 <= i < j < bytes@.len() ==> bytes@[i] < bytes@[j],
    ensures
        r@ == runs_before_gaps(bytes@, 1, bytes@[0]),
{
    let mut res: Vec<(u8, u8)> = Vec::new();
    let mut start: u8 = bytes[0];
    let mut prev: u8 = start;
    let mut k: usize = 1;
    while k < bytes.len()
        invariant
            1 <= k <= bytes@.len(),
            prev == bytes@[k - 1],
            forall|i: int, j: int| 0 <= i < j < bytes@.len() ==> bytes@[i] < bytes@[j],
            res@ + runs_before_gaps(bytes@, k as int, start) == runs_before_gaps(
                bytes@,
                1,
                bytes@[0],
            ),
        decreases bytes@.len() - k,
    {
        let cur = bytes[k];
        let ghost before = res@;
        if cur - 1 != prev {
            res.push((start, prev));
            proof {
                assert(res@ + runs_before_gaps(bytes@, k as int + 1, cur) =~= before + (seq![
                    (start, prev),
                ] + runs_before_gaps(bytes@, k as int + 1, cur)));
            }
            start = cur;
        }
        prev = cur;
        k += 1;
    }
    proof {
        assert(res@ + Seq::<(u8, u8)>::empty() =~= res@);
    }
    res
}

impl NFA {
    /// The bytes on which state `from` leads to state `to`, in ascending
    /// order.
    pub fn bytes_between(&self, from: usize, to: usize) -> (r: Vec<u8>)
        requires
            self.wf(),
            from < self@.states.len(),
        ensures
            forall|i: int, j: int| 0 <= i < j < r@.len() ==> r@[i] < r@[j],
            forall|b: u8| r@.contains(b) <==> self@.targets(from as int, b).contains(to),
    {
        let mut r: Vec<u8> = Vec::new();
        let mut c: usize = 0;
        while c < 256
            invariant
                c <= 256,
                self.wf(),
                from < self@.states.len(),
                forall|i: int, j: int| 0 <= i < j < r@.len() ==> r@[i] < r@[j],
                forall|i: int| 0 <= i < r@.len() ==> r@[i] < c,
                forall|b: u8| r@.contains(b) <==> b < c && self@.targets(from as int, b).contains(to),
            decreases 256 - c,
        {
            let byte = c as u8;
            let ghost before = r@;
            let targets = self.targets(from, byte);
            let found = crate::ordset::contains(&targets, to);
            proof {
                assert(targets@.contains(to) <==> targets@.to_set().contains(to));
            }
            if found {
                r.push(byte);
            }
            proof {
                assert forall|b: u8| r@.contains(b) <==> b < c + 1 && self@.targets(
                    from as int,
                    b,
                ).contains(to) by {
                    if r@.contains(b) {
                        let i = choose|i: int| 0 <= i < r@.len() && r@[i] == b;
                        if i < before.len() {
                            assert(before[i] == b);
                            assert(before.contains(b));
                        }
                    }
                    if before.contains(b) {
                        let i = choose|i: int| 0 <= i < before.len() && before[i] == b;
                        assert(r@[i] == b);
                    }
                    if b == byte && found {
                        assert(r@[before.len() as int] == b);
                    }
                }
            }
            c += 1;
        }
        r
    }

    /// The least state that state `cur` leads to on `byte`, if it leads to
    /// any.
    pub fn first_target(&self, cur: usize, byte: u8) -> (r: Option<usize>)
        requires
            self.wf(),
            cur < self@.states.len(),
        ensures
            r == least_target(self@, cur, byte),
            r.is_some() ==> r.unwrap() < self@.states.len(),
    {
        let targets = self.targets(cur, byte);
        proof {
            self.lemma_wf();
            assert forall|x: usize| targets@.contains(x) <==> self@.targets(
                cur as int,
                byte,
            ).contains(x) && x < self@.states.len() by {
                assert(targets@.contains(x) <==> targets@.to_set().contains(x));
            }
            lemma_listing_unique(targets@, self@.targets(cur as int, byte), self@.states.len());
            if targets@.len() > 0 {
                assert(targets@.contains(targets@[0]));
            }
        }
        if targets.len() > 0 {
            Some(targets[0])
        } else {
            None
        }
    }

    /// The transitions that the patterns of the dictionary take from the
    /// start state, pattern after pattern and byte after byte: each leads to
    /// the least state that the byte leads to, and a byte that leads
    /// nowhere is passed over.
    pub fn dict_edges(&self) -> (r: Vec<(usize, usize)>)
        requires
            self.wf(),
        ensures
            r@ == spelled_upto(self@, self@.dict.len() as int),
    {
        let mut r: Vec<(usize, usize)> = Vec::new();
        let count = self.pattern_count();
        let mut i: usize = 0;
        proof {
            self.lemma_wf();
        }
        while i < count
            invariant
                i <= count,
                count == self@.dict.len(),
                self.wf(),
                self@.shaped(),
                r@ == spelled_upto(self@, i as int),
            decreases count - i,
        {
            let pattern = self.pattern(i);
            let ghost done = r@;
            let mut cur: usize = START;
            let mut k: usize = 0;
            proof {
                assert(pattern@.skip(0) =~= pattern@);
            }
            while k < pattern.len()
                invariant
                    k <= pattern@.len(),
                    self.wf(),
                    cur < self@.states.len(),
                    r@ + spelled(self@, cur, pattern@.skip(k as int)) == done + spelled(
                        self@,
                        START,
                        pattern@,
                    ),
                decreases pattern@.len() - k,
            {
                let ghost before = r@;
                let ghost rest = pattern@.skip(k as int);
                proof {
                    assert(rest[0] == pattern@[k as int]);
                    assert(rest.drop_first() =~= pattern@.skip(k as int + 1));
                }
                match self.first_target(cur, pattern[k]) {
                    Some(t) => {
                        r.push((cur, t));
                        proof {
                            assert(r@ + spelled(self@, t, pattern@.skip(k as int + 1)) =~= before + (
                            seq![(cur, t)] + spelled(self@, t, pattern@.skip(k as int + 1))));
                        }
                        cur = t;
                    },
                    None => {},
                }
                k += 1;
            }
            proof {
                assert(pattern@.skip(pattern@.len() as int) =~= Seq::<u8>::empty());
                assert(r@ + Seq::<(usize, usize)>::empty() =~= r@);
            }
            i += 1;
        }
        r
    }
}

} // verus!
