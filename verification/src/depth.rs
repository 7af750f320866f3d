//! The layers of an automaton by depth: the states that a search from the
//! start state meets step by step.

use vstd::prelude::*;
use crate::model::NfaModel;
use crate::nfa::NFA;
use crate::ordset;
use crate::ordset::{ascending, lemma_single_to_set};
use crate::START;

verus! {

/// Whether state `n` is in a layer before layer `d`.
pub open spec fn met_before(layers: Seq<Seq<usize>>, d: int, n: usize) -> bool {
    exists|e: int| 0 <= e < d && e < layers.len() && #[trigger] layers[e].contains(n)
}

/// Whether state `n` was not met when state `k` of the layer `cur` is
/// looked at: it is in no layer before layer `d`, and not among the states
/// of `cur` up to state `k`.
pub open spec fn unmet(layers: Seq<Seq<usize>>, d: int, cur: Seq<usize>, k: int, n: usize) -> bool {
    !met_before(layers, d, n) && !cur.take(k + 1).contains(n)
}

/// Whether state `k` of the layer `cur` leads to state `n` on some byte.
pub open spec fn leads_on(m: NfaModel, cur: Seq<usize>, k: int, n: usize) -> bool {
    exists|b: u8| #[trigger] m.targets(cur[k] as int, b).contains(n)
}

/// Whether one of the first `upto` states of the layer `cur`, which is
/// layer `d`, leads to state `n`, which was not met when that state is
/// looked at.
pub open spec fn reached_from(
    m: NfaModel,
    layers: Seq<Seq<usize>>,
    d: int,
    cur: Seq<usize>,
    upto: int,
    n: usize,
) -> bool {
    exists|k: int|
        0 <= k < upto && k < cur.len() && #[trigger] leads_on(m, cur, k, n) && unmet(
            layers,
            d,
            cur,
            k,
            n,
        )
}

/// Whether state `node` leads to state `n` on one of the first `a` bytes of
/// the alphabet.
pub open spec fn on_byte_before(m: NfaModel, node: usize, alphabet: Seq<u8>, a: int, n: usize) -> bool {
    exists|i: int| 0 <= i < a && #[trigger] m.targets(node as int, alphabet[i]).contains(n)
}

/// Whether state `n` belongs to the layer after layer `d`.
pub open spec fn reached(m: NfaModel, layers: Seq<Seq<usize>>, d: int, n: usize) -> bool {
    reached_from(m, layers, d, layers[d], layers[d].len() as int, n)
}

/// Whether `layers` are layers of `m`, each but the last followed by the
/// layer that its states lead to.
pub open spec fn layered(m: NfaModel, layers: Seq<Seq<usize>>) -> bool {
    &&& layers.len() >= 1
    &&& layers[0] == seq![START]
    &&& forall|d: int|
        0 <= d < layers.len() ==> ascending(#[trigger] layers[d]) && forall|k: int|
            0 <= k < layers[d].len() ==> layers[d][k] < m.states.len()
    &&& forall|d: int| 0 <= d < layers.len() - 1 ==> (#[trigger] layers[d]).len() > 0
    &&& forall|d: int, n: usize|
        1 <= d < layers.len() ==> (#[trigger] layers[d].contains(n) <==> reached(
            m,
            layers,
            d - 1,
            n,
        ))
}

/// Whether the last of the layers leads to state `n`, which was not met.
pub open spec fn last_reaches(m: NfaModel, layers: Seq<Seq<usize>>, n: usize) -> bool {
    reached(m, layers, layers.len() - 1, n)
}

/// Whether `layers` are the layers of `m` by depth: the first holds the
/// start state; the next holds the states that a state of the layer leads
/// to and that were not met yet, where a state is met when its layer is
/// reached, and within a layer when its turn comes in ascending order; the
/// last layer leads to no state that was not met.
pub open spec fn is_layering(m: NfaModel, layers: Seq<Seq<usize>>) -> bool {
    &&& layered(m, layers)
    &&& layers[layers.len() - 1].len() > 0
    &&& forall|n: usize| !#[trigger] last_reaches(m, layers, n)
}

/// How many entries of `flags` are set.
pub open spec fn count_set(flags: Seq<bool>) -> nat
    decreases flags.len(),
{
    if flags.len() == 0 {
        0
    } else {
        count_set(flags.drop_last()) + if flags.last() {
            1nat
        } else {
            0nat
        }
    }
}

/// No more entries are set than there are.
pub proof fn lemma_count_bound(flags: Seq<bool>)
    ensures
        count_set(flags) <= flags.len(),
    decreases flags.len(),
{
    if flags.len() > 0 {
        lemma_count_bound(flags.drop_last());
    }
}

/// Setting an entry that was not set adds one to the count.
pub proof fn lemma_count_update(flags: Seq<bool>, i: int)
    requires
        0 <= i < flags.len(),
        !flags[i],
    ensures
        count_set(flags.update(i, true)) == count_set(flags) + 1,
    decreases flags.len(),
{
    let after = flags.update(i, true);
    if i == flags.len() - 1 {
        assert(after.drop_last() =~= flags.drop_last());
    } else {
        lemma_count_update(flags.drop_last(), i);
        assert(after.drop_last() =~= flags.drop_last().update(i, true));
    }
}

/// Whether some state of `cur` is not flagged.
pub open spec fn has_unflagged(flags: Seq<bool>, cur: Seq<usize>) -> bool {
    exists|k: int| 0 <= k < cur.len() && !flags[#[trigger] cur[k] as int]
}

/// What is left to do for a search that has flagged the states it met and
/// turns to the layer `cur`.
pub open spec fn work_left(flags: Seq<bool>, cur: Seq<usize>) -> int {
    2 * (flags.len() - count_set(flags)) + if cur.len() > 0 && !has_unflagged(flags, cur) {
        1int
    } else {
        0int
    }
}

/// What a layer leads to does not depend on the layers after it.
pub proof fn lemma_reached_prefix(
    m: NfaModel,
    short: Seq<Seq<usize>>,
    long: Seq<Seq<usize>>,
    d: int,
    n: usize,
)
    requires
        0 <= d < short.len() <= long.len(),
        forall|e: int| 0 <= e <= d ==> short[e] == long[e],
    ensures
        reached(m, short, d, n) == reached(m, long, d, n),
        met_before(short, d + 1, n) == met_before(long, d + 1, n),
{
    let cur = short[d];
    assert(met_before(short, d, n) == met_before(long, d, n)) by {
        if met_before(short, d, n) {
            let e = choose|e: int| 0 <= e < d && e < short.len() && #[trigger] short[e].contains(n);
            assert(long[e].contains(n));
        }
        if met_before(long, d, n) {
            let e = choose|e: int| 0 <= e < d && e < long.len() && #[trigger] long[e].contains(n);
            assert(short[e].contains(n));
        }
    }
    assert(met_before(short, d + 1, n) == met_before(long, d + 1, n)) by {
        if met_before(short, d + 1, n) {
            let e = choose|e: int|
                0 <= e < d + 1 && e < short.len() && #[trigger] short[e].contains(n);
            assert(long[e].contains(n));
        }
        if met_before(long, d + 1, n) {
            let e = choose|e: int| 0 <= e < d + 1 && e < long.len() && #[trigger] long[e].contains(n);
            assert(short[e].contains(n));
        }
    }
    if reached(m, short, d, n) {
        let k = choose|k: int|
            0 <= k < cur.len() && k < cur.len() && #[trigger] leads_on(m, cur, k, n) && unmet(
                short,
                d,
                cur,
                k,
                n,
            );
        assert(leads_on(m, cur, k, n) && unmet(long, d, cur, k, n));
    }
    if reached(m, long, d, n) {
        let k = choose|k: int|
            0 <= k < cur.len() && k < cur.len() && #[trigger] leads_on(m, cur, k, n) && unmet(
                long,
                d,
                cur,
                k,
                n,
            );
        assert(leads_on(m, cur, k, n) && unmet(short, d, cur, k, n));
    }
}

/// The layers with one more layer, which holds what the last one leads to.
pub proof fn lemma_layered_push(m: NfaModel, layers: Seq<Seq<usize>>, next: Seq<usize>)
    requires
        layered(m, layers),
        layers[layers.len() - 1].len() > 0,
        ascending(next),
        forall|k: int| 0 <= k < next.len() ==> next[k] < m.states.len(),
        forall|n: usize| next.contains(n) <==> #[trigger] last_reaches(m, layers, n),
    ensures
        layered(m, layers.push(next)),
{
    let longer = layers.push(next);
    assert forall|d: int, n: usize| 1 <= d < longer.len() implies (
    #[trigger] longer[d].contains(n) <==> reached(m, longer, d - 1, n)) by {
        lemma_reached_prefix(m, layers, longer, d - 1, n);
        if d < layers.len() {
            assert(longer[d] == layers[d]);
            assert(layers[d].contains(n) <==> reached(m, layers, d - 1, n));
        } else {
            assert(next.contains(n) <==> last_reaches(m, layers, n));
        }
    }
    assert forall|d: int| 0 <= d < longer.len() implies ascending(#[trigger] longer[d])
        && forall|k: int| 0 <= k < longer[d].len() ==> longer[d][k] < m.states.len() by {
        if d < layers.len() {
            assert(longer[d] == layers[d]);
        }
    }
    assert forall|d: int| 0 <= d < longer.len() - 1 implies (#[trigger] longer[d]).len() > 0 by {
        assert(longer[d] == layers[d]);
    }
}

/// The layers as plain sequences.
pub open spec fn layer_seqs(layers: Seq<Vec<usize>>) -> Seq<Seq<usize>> {
    Seq::new(layers.len(), |d: int| layers[d]@)
}

impl NFA {
    /// Finds the layers of the automaton by depth, unless they were found
    /// before: then nothing changes.
    pub fn add_depth_map(&mut self)
        requires
            old(self).wf(),
        ensures
            final(self).wf(),
            final(self)@ == old(self)@,
            old(self).depth_layers().len() > 0 ==> final(self).depth_layers() == old(
                self,
            ).depth_layers(),
            old(self).depth_layers().len() == 0 ==> is_layering(
                final(self)@,
                final(self).depth_layers(),
            ),
    {
        proof {
            self.lemma_fields();
            self.lemma_depth_layers();
        }
        if self.depth_map.len() > 0 {
            return;
        }
        let ghost m = self@;
        let states_len = self.states.len();
        let mut visited: Vec<bool> = Vec::new();
        let mut c: usize = 0;
        while c < states_len
            invariant
                c <= states_len,
                visited@.len() == c,
                forall|s: int| 0 <= s < c ==> !visited@[s],
            decreases states_len - c,
        {
            visited.push(false);
            c += 1;
        }
        let mut layers: Vec<Vec<usize>> = Vec::new();
        let mut cur: Vec<usize> = Vec::new();
        cur.push(START);
        proof {
            assert(cur@ =~= seq![START]);
            lemma_single_to_set(START);
            let full = layer_seqs(layers@).push(cur@);
            assert forall|s: int| 0 <= s < states_len implies (visited@[s] <==> met_before(
                full,
                full.len() - 1,
                s as usize,
            )) by {}
        }
        while cur.len() > 0
            invariant
                self.wf(),
                m == self@,
                *self == *old(self),
                states_len == self.states.len(),
                states_len == m.states.len(),
                visited@.len() == states_len,
                layered(m, layer_seqs(layers@).push(cur@)),
                forall|s: int|
                    0 <= s < states_len ==> (#[trigger] visited@[s] <==> met_before(
                        layer_seqs(layers@).push(cur@),
                        layers@.len() as int,
                        s as usize,
                    )),
            decreases work_left(visited@, cur@),
        {
            let ghost full = layer_seqs(layers@).push(cur@);
            let ghost d = layers@.len() as int;
            let ghost visited0 = visited@;
            let ghost curv = cur@;
            let mut nxt: Vec<usize> = Vec::new();
            let mut k: usize = 0;
            proof {
                assert(full[d] == curv);
                assert(ascending(full[d]) && forall|j: int|
                    0 <= j < full[d].len() ==> full[d][j] < m.states.len());
                lemma_count_bound(visited0);
                assert(curv.take(0) =~= Seq::<usize>::empty());
            }
            while k < cur.len()
                invariant
                    self.wf(),
                    m == self@,
                    *self == *old(self),
                    states_len == self.states.len(),
                    states_len == m.states.len(),
                    visited@.len() == states_len,
                    visited0.len() == states_len,
                    curv == cur@,
                    k <= curv.len(),
                    ascending(curv),
                    forall|j: int| 0 <= j < curv.len() ==> curv[j] < states_len,
                    forall|s: int|
                        0 <= s < states_len ==> (#[trigger] visited0[s] <==> met_before(
                            full,
                            d,
                            s as usize,
                        )),
                    forall|s: int|
                        0 <= s < states_len ==> (#[trigger] visited@[s] <==> visited0[s]
                            || curv.take(k as int).contains(s as usize)),
                    ascending(nxt@),
                    forall|j: int| 0 <= j < nxt@.len() ==> nxt@[j] < states_len,
                    forall|x: usize| #[trigger]
                        nxt@.contains(x) <==> reached_from(m, full, d, curv, k as int, x),
                    count_set(visited@) >= count_set(visited0),
                    (exists|j: int| 0 <= j < k && !visited0[#[trigger] curv[j] as int])
                        ==> count_set(visited@) > count_set(visited0),
                    !has_unflagged(visited0, curv) ==> visited@ == visited0,
                decreases curv.len() - k,
            {
                let node = cur[k];
                let ghost before_node = visited@;
                let ghost nxt_before = nxt@;
                visited.set(node, true);
                proof {
                    if before_node[node as int] {
                        assert(visited@ =~= before_node);
                    } else {
                        lemma_count_update(before_node, node as int);
                        if visited0[node as int] {
                        } else {
                        }
                    }
                    let shorter = curv.take(k as int);
                    let longer = curv.take(k as int + 1);
                    assert(longer =~= shorter.push(node));
                    assert forall|s: int| 0 <= s < states_len implies (#[trigger] visited@[s]
                        <==> visited0[s] || longer.contains(s as usize)) by {
                        if shorter.contains(s as usize) {
                            let j = choose|j: int| 0 <= j < shorter.len() && shorter[j] == s as usize;
                            assert(longer[j] == s as usize);
                        }
                        if longer.contains(s as usize) {
                            let j = choose|j: int| 0 <= j < longer.len() && longer[j] == s as usize;
                            if j < k {
                                assert(shorter[j] == s as usize);
                            }
                        }
                        if s == node {
                            assert(longer[k as int] == node);
                        }
                    }
                    if !has_unflagged(visited0, curv) {
                        assert(visited0[curv[k as int] as int]);
                    }
                    if !visited0[node as int] {
                        assert(!before_node[node as int]) by {
                            if shorter.contains(node) {
                                let j = choose|j: int| 0 <= j < shorter.len() && shorter[j] == node;
                                assert(curv[j] < curv[k as int]);
                            }
                        }
                    }
                }
                let mut a: usize = 0;
                while a < self.alphabet.len()
                    invariant
                        self.wf(),
                        m == self@,
                        *self == *old(self),
                        states_len == self.states.len(),
                        states_len == m.states.len(),
                        visited@.len() == states_len,
                        curv == cur@,
                        k < curv.len(),
                        node == curv[k as int],
                        node < states_len,
                        a <= self.alphabet.len(),
                        forall|s: int|
                            0 <= s < states_len ==> (#[trigger] visited@[s] <==> !unmet(
                                full,
                                d,
                                curv,
                                k as int,
                                s as usize,
                            )),
                        ascending(nxt@),
                        forall|j: int| 0 <= j < nxt@.len() ==> nxt@[j] < states_len,
                        forall|x: usize| #[trigger]
                            nxt@.contains(x) <==> nxt_before.contains(x) || (unmet(
                                full,
                                d,
                                curv,
                                k as int,
                                x,
                            ) && on_byte_before(m, node, self.alphabet@, a as int, x)),
                    decreases self.alphabet.len() - a,
                {
                    let b = self.alphabet[a];
                    let ghost nxt_a = nxt@;
                    proof {
                        self.lemma_fields();
                    }
                    match self.states[node].targets_of(b) {
                        Some(ts) => {
                            let mut i: usize = 0;
                            while i < ts.len()
                                invariant
                                    i <= ts.len(),
                                    visited@.len() == states_len,
                                    states_len == m.states.len(),
                                    m.shaped(),
                                    node < states_len,
                                    ts@.to_set() == m.targets(node as int, b),
                                    forall|s: int|
                                        0 <= s < states_len ==> (#[trigger] visited@[s] <==> !unmet(
                                            full,
                                            d,
                                            curv,
                                            k as int,
                                            s as usize,
                                        )),
                                    ascending(nxt@),
                                    forall|j: int| 0 <= j < nxt@.len() ==> nxt@[j] < states_len,
                                    forall|x: usize| #[trigger]
                                        nxt@.contains(x) <==> nxt_a.contains(x) || (unmet(
                                            full,
                                            d,
                                            curv,
                                            k as int,
                                            x,
                                        ) && ts@.take(i as int).contains(x)),
                                decreases ts.len() - i,
                            {
                                let t = ts[i];
                                let ghost shorter = ts@.take(i as int);
                                let ghost longer = ts@.take(i as int + 1);
                                let ghost nxt_i = nxt@;
                                proof {
                                    assert(ts@.contains(t));
                                    assert(ts@.to_set().contains(t));
                                    assert(m.targets(node as int, b).contains(t));
                                    assert(t < states_len);
                                    assert(longer =~= shorter.push(t));
                                    assert(visited@[t as int] <==> !unmet(
                                        full,
                                        d,
                                        curv,
                                        k as int,
                                        t,
                                    ));
                                    assert forall|x: usize| longer.contains(x) <==> shorter.contains(
                                        x,
                                    ) || x == t by {
                                        if shorter.contains(x) {
                                            let j = choose|j: int|
                                                0 <= j < shorter.len() && shorter[j] == x;
                                            assert(longer[j] == x);
                                        }
                                        if longer.contains(x) {
                                            let j = choose|j: int|
                                                0 <= j < longer.len() && longer[j] == x;
                                            if j < i {
                                                assert(shorter[j] == x);
                                            }
                                        }
                                        if x == t {
                                            assert(longer[i as int] == t);
                                        }
                                    }
                                }
                                if !visited[t] {
                                    ordset::insert(&mut nxt, t);
                                    proof {
                                        assert forall|x: usize| #[trigger]
                                            nxt@.contains(x) <==> nxt_i.contains(x) || x == t by {
                                            assert(nxt@.contains(x) <==> nxt@.to_set().contains(x));
                                            assert(nxt_i.contains(x) <==> nxt_i.to_set().contains(x));
                                        }
                                        assert forall|j: int| 0 <= j < nxt@.len() implies nxt@[j]
                                            < states_len by {
                                            assert(nxt@.contains(nxt@[j]));
                                            if nxt@[j] != t {
                                                assert(nxt_i.contains(nxt@[j]));
                                                let z = choose|z: int|
                                                    0 <= z < nxt_i.len() && nxt_i[z] == nxt@[j];
                                            }
                                        }
                                    }
                                }
                                proof {
                                    assert forall|x: usize| #[trigger]
                                        nxt@.contains(x) <==> nxt_a.contains(x) || (unmet(
                                            full,
                                            d,
                                            curv,
                                            k as int,
                                            x,
                                        ) && longer.contains(x)) by {
                                        assert(nxt_i.contains(x) <==> nxt_a.contains(x) || (unmet(
                                            full,
                                            d,
                                            curv,
                                            k as int,
                                            x,
                                        ) && shorter.contains(x)));
                                    }
                                }
                                i += 1;
                            }
                            proof {
                                assert(ts@.take(ts@.len() as int) =~= ts@);
                                assert forall|x: usize| #[trigger]
                                    nxt@.contains(x) <==> nxt_a.contains(x) || (unmet(
                                        full,
                                        d,
                                        curv,
                                        k as int,
                                        x,
                                    ) && m.targets(node as int, b).contains(x)) by {
                                    assert(ts@.contains(x) <==> ts@.to_set().contains(x));
                                }
                            }
                        },
                        None => {
                            proof {
                                assert forall|x: usize| #[trigger]
                                    nxt@.contains(x) <==> nxt_a.contains(x) || (unmet(
                                        full,
                                        d,
                                        curv,
                                        k as int,
                                        x,
                                    ) && m.targets(node as int, b).contains(x)) by {
                                    assert(!m.targets(node as int, b).contains(x));
                                }
                            }
                        },
                    }
                    proof {
                        assert forall|x: usize| #[trigger]
                            nxt@.contains(x) <==> nxt_before.contains(x) || (unmet(
                                full,
                                d,
                                curv,
                                k as int,
                                x,
                            ) && on_byte_before(m, node, self.alphabet@, a as int + 1, x)) by {
                            let earlier = on_byte_before(m, node, self.alphabet@, a as int, x);
                            let later = on_byte_before(m, node, self.alphabet@, a as int + 1, x);
                            let now = m.targets(node as int, b).contains(x);
                            assert(nxt_a.contains(x) <==> nxt_before.contains(x) || (unmet(
                                full,
                                d,
                                curv,
                                k as int,
                                x,
                            ) && earlier));
                            if now {
                                assert(m.targets(node as int, self.alphabet@[a as int]).contains(x));
                            }
                            if earlier {
                                let i = choose|i: int|
                                    0 <= i < a && #[trigger] m.targets(
                                        node as int,
                                        self.alphabet@[i],
                                    ).contains(x);
                                assert(m.targets(node as int, self.alphabet@[i]).contains(x));
                            }
                            if later {
                                let i = choose|i: int|
                                    0 <= i < a + 1 && #[trigger] m.targets(
                                        node as int,
                                        self.alphabet@[i],
                                    ).contains(x);
                                if i < a {
                                    assert(earlier);
                                } else {
                                    assert(now);
                                }
                            }
                        }
                    }
                    a += 1;
                }
                proof {
                    self.lemma_fields();
                    assert forall|x: usize| nxt@.contains(x) <==> reached_from(
                        m,
                        full,
                        d,
                        curv,
                        k as int + 1,
                        x,
                    ) by {
                        let fresh = unmet(full, d, curv, k as int, x);
                        if reached_from(m, full, d, curv, k as int, x) {
                            let j = choose|j: int|
                                0 <= j < k && j < curv.len() && #[trigger] leads_on(m, curv, j, x)
                                    && unmet(full, d, curv, j, x);
                            assert(leads_on(m, curv, j, x) && unmet(full, d, curv, j, x));
                        }
                        let on_byte = on_byte_before(
                            m,
                            node,
                            self.alphabet@,
                            self.alphabet@.len() as int,
                            x,
                        );
                        assert(nxt@.contains(x) <==> nxt_before.contains(x) || (fresh && on_byte));
                        assert(nxt_before.contains(x) <==> reached_from(
                            m,
                            full,
                            d,
                            curv,
                            k as int,
                            x,
                        ));
                        if fresh && on_byte {
                            let i = choose|i: int|
                                0 <= i < self.alphabet@.len() && #[trigger] m.targets(
                                    node as int,
                                    self.alphabet@[i],
                                ).contains(x);
                            assert(m.targets(curv[k as int] as int, self.alphabet@[i]).contains(x));
                            assert(leads_on(m, curv, k as int, x));
                            assert(reached_from(m, full, d, curv, k as int + 1, x));
                        }
                        if reached_from(m, full, d, curv, k as int + 1, x) {
                            let j = choose|j: int|
                                0 <= j < k + 1 && j < curv.len() && #[trigger] leads_on(
                                    m,
                                    curv,
                                    j,
                                    x,
                                ) && unmet(full, d, curv, j, x);
                            if j < k {
                                assert(reached_from(m, full, d, curv, k as int, x));
                            } else {
                                let b = choose|b: u8| #[trigger]
                                    m.targets(curv[k as int] as int, b).contains(x);
                                assert(m.targets(node as int, b).contains(x));
                                assert(m.alphabet.contains(b));
                                let i = choose|i: int|
                                    0 <= i < m.alphabet.len() && m.alphabet[i] == b;
                                assert(m.targets(node as int, self.alphabet@[i]).contains(x));
                                assert(on_byte);
                            }
                        }
                    }
                    if exists|j: int| 0 <= j < k + 1 && !visited0[#[trigger] curv[j] as int] {
                        let j = choose|j: int| 0 <= j < k + 1 && !visited0[#[trigger] curv[j] as int];
                        if j < k {
                        } else {
                            assert(!visited0[node as int]);
                        }
                    }
                }
                k += 1;
            }
            let ghost visited1 = visited@;
            proof {
                assert(curv.take(curv.len() as int) =~= curv);
                assert forall|x: usize| nxt@.contains(x) <==> #[trigger] last_reaches(
                    m,
                    full,
                    x,
                ) by {}
                lemma_layered_push(m, full, nxt@);
            }
            layers.push(cur);
            cur = nxt;
            proof {
                let full2 = layer_seqs(layers@).push(cur@);
                assert(full2 =~= full.push(cur@));
                assert forall|s: int| 0 <= s < states_len implies (#[trigger] visited@[s]
                    <==> met_before(full2, layers@.len() as int, s as usize)) by {
                    if met_before(full, d, s as usize) {
                        let e = choose|e: int|
                            0 <= e < d && e < full.len() && #[trigger] full[e].contains(s as usize);
                        assert(full2[e].contains(s as usize));
                    }
                    if curv.contains(s as usize) {
                        assert(full2[d].contains(s as usize));
                    }
                    if met_before(full2, d + 1, s as usize) {
                        let e = choose|e: int|
                            0 <= e < d + 1 && e < full2.len() && #[trigger] full2[e].contains(
                                s as usize,
                            );
                        if e < d {
                            assert(full[e].contains(s as usize));
                        }
                    }
                }
                // the work that is left has become less
                lemma_count_bound(visited1);
                if has_unflagged(visited0, curv) {
                    let j = choose|j: int| 0 <= j < curv.len() && !visited0[#[trigger] curv[j] as int];
                    assert(count_set(visited1) > count_set(visited0));
                } else {
                    assert(visited1 == visited0);
                    if cur@.len() > 0 {
                        let x = cur@[0];
                        assert(cur@.contains(x));
                        assert(last_reaches(m, full, x));
                        assert(reached(m, full, d, x));
                        assert(!met_before(full, d, x));
                        assert(!visited0[x as int]);
                        assert(has_unflagged(visited1, cur@));
                    }
                }
            }
        }
        proof {
            let found = layer_seqs(layers@);
            let full = found.push(cur@);
            assert(cur@ =~= Seq::<usize>::empty());
            assert(found.len() >= 1) by {
                if found.len() == 0 {
                    assert(full[0] == seq![START]);
                }
            }
            assert(layered(m, found)) by {
                assert forall|d: int, n: usize| 1 <= d < found.len() implies (
                #[trigger] found[d].contains(n) <==> reached(m, found, d - 1, n)) by {
                    lemma_reached_prefix(m, found, full, d - 1, n);
                    assert(full[d] == found[d]);
                    assert(full[d].contains(n) <==> reached(m, full, d - 1, n));
                }
                assert(found[0] == full[0]);
                assert forall|d: int| 0 <= d < found.len() implies ascending(#[trigger] found[d])
                    && forall|k: int| 0 <= k < found[d].len() ==> found[d][k] < m.states.len() by {
                    assert(found[d] == full[d]);
                }
                assert forall|d: int| 0 <= d < found.len() - 1 implies (#[trigger] found[d]).len()
                    > 0 by {
                    assert(found[d] == full[d]);
                }
            }
            assert(found[found.len() - 1] == full[found.len() - 1]);
            assert forall|n: usize| !#[trigger] last_reaches(m, found, n) by {
                lemma_reached_prefix(m, found, full, found.len() - 1, n);
                let last = found.len() as int;
                assert(full[last].contains(n) <==> reached(m, full, last - 1, n));
            }
        }
        self.depth_map = layers;
        proof {
            self.lemma_fields();
            old(self).lemma_fields();
            self.lemma_depth_layers();
        }
    }

    /// The layers of the automaton by depth, as far as `add_depth_map` has
    /// found them: none before it has run.
    pub fn depth_map(&self) -> (r: Vec<Vec<usize>>)
        ensures
            layer_seqs(r@) == self.depth_layers(),
    {
        let mut r: Vec<Vec<usize>> = Vec::new();
        let mut d: usize = 0;
        proof {
            self.lemma_depth_layers();
        }
        while d < self.depth_map.len()
            invariant
                d <= self.depth_map.len(),
                r@.len() == d,
                forall|e: int| 0 <= e < d ==> r@[e]@ == self.depth_map@[e]@,
            decreases self.depth_map.len() - d,
        {
            r.push(self.depth_map[d].clone());
            d += 1;
        }
        proof {
            assert(layer_seqs(r@) =~= layer_seqs(self.depth_map@));
        }
        r
    }
}

} // verus!
