//! What it means for a deterministic automaton to be the subset automaton
//! of a nondeterministic one, and why the two report the same patterns.

use vstd::prelude::*;
use crate::model::{is_rank, NfaModel};
use crate::ordset::ascending;
use crate::{START, STUCK};

verus! {

/// Whether no state but the sink is in `a`: nothing can be reported from
/// here on.
pub open spec fn dead(a: Set<usize>) -> bool {
    forall|x: usize| a.contains(x) ==> x == STUCK
}

/// Whether state `q` of the subset automaton stands for the set `a` of
/// states: it is the state made for `a`, or it is the sink and `a` is dead.
pub open spec fn stands_for(subs: Seq<Set<usize>>, q: usize, a: Set<usize>) -> bool {
    q < subs.len() && (subs[q as int] == a || (q == STUCK && dead(a)))
}

/// Whether in `d` state `q` leads on byte `b` to state `q2` alone, and `q2`
/// stands for what the states of `q` lead to in `n`.
pub open spec fn leads(
    d: NfaModel,
    n: NfaModel,
    subs: Seq<Set<usize>>,
    q: int,
    b: u8,
    q2: usize,
) -> bool {
    d.targets(q, b) == set![q2] && stands_for(subs, q2, n.step(subs[q], b))
}

/// Whether in `d` state `q` leads on byte `b` to one state, which stands
/// for what the states of `q` lead to in `n`.
pub open spec fn has_lead(d: NfaModel, n: NfaModel, subs: Seq<Set<usize>>, q: int, b: u8) -> bool {
    exists|q2: usize| leads(d, n, subs, q, b, q2)
}

/// Whether state `q` of `d` has its transition on each of the first `a`
/// bytes of the alphabet, and none on any other byte.
pub open spec fn installed(d: NfaModel, n: NfaModel, subs: Seq<Set<usize>>, q: int, a: int) -> bool {
    &&& forall|i: int| 0 <= i < a ==> has_lead(d, n, subs, q, #[trigger] n.alphabet[i])
    &&& forall|b: u8|
        !n.alphabet.take(a).contains(b) ==> #[trigger] d.targets(q, b) == Set::<usize>::empty()
}

/// Whether `d` is the subset automaton of `n` as far as it is built: state
/// `q` of `d` stands for the set `subs[q]` of states of `n`, no two states
/// for the same set, it ends the patterns that end in a state of its set,
/// and it has its transitions on the first `progress[q]` bytes of the
/// alphabet.
pub open spec fn building(
    d: NfaModel,
    n: NfaModel,
    subs: Seq<Set<usize>>,
    progress: Seq<int>,
) -> bool {
    &&& d.dict == n.dict
    &&& d.alphabet == n.alphabet
    &&& 2 <= d.states.len() <= usize::MAX
    &&& subs.len() == d.states.len()
    &&& progress.len() == d.states.len()
    &&& subs[START as int] == set![START]
    &&& subs[STUCK as int] == set![STUCK]
    &&& progress[STUCK as int] == 0
    &&& forall|q: int| 0 <= q < subs.len() ==> n.inside(#[trigger] subs[q])
    &&& forall|q1: int, q2: int| 0 <= q1 < q2 < subs.len() ==> subs[q1] != subs[q2]
    &&& forall|q: int|
        0 <= q < d.states.len() ==> (#[trigger] d.states[q]).targets.len() == 256 && ascending(
            d.states[q].ends,
        ) && d.states[q].ends.to_set() == n.ends_of(subs[q])
    &&& forall|q: int|
        0 <= q < d.states.len() ==> 0 <= #[trigger] progress[q] <= n.alphabet.len() && installed(
            d,
            n,
            subs,
            q,
            progress[q],
        )
}

/// The progress of a finished construction: every state but the sink has
/// all its transitions.
pub open spec fn finished(d: NfaModel) -> Seq<int> {
    Seq::new(
        d.states.len(),
        |q: int|
            if q == STUCK {
                0
            } else {
                d.alphabet.len() as int
            },
    )
}

/// Whether `d` is the subset automaton of `n`: the start state stands for
/// the start state of `n`, each state but the sink leads on each byte of
/// the alphabet to the state that stands for what its own states lead to,
/// and each state ends the patterns that end in one of its states.
pub open spec fn subset_automaton(d: NfaModel, n: NfaModel, subs: Seq<Set<usize>>) -> bool {
    building(d, n, subs, finished(d))
}

/// Whether each of the sets `subs` but that of the sink is the set of
/// active states of `n` after some text.
pub open spec fn all_reached(n: NfaModel, subs: Seq<Set<usize>>) -> bool {
    forall|q: int| 0 <= q < subs.len() && q != STUCK ==> is_reached(n, #[trigger] subs[q])
}

/// Whether `a` is the set of active states of `n` after some text.
pub open spec fn is_reached(n: NfaModel, a: Set<usize>) -> bool {
    exists|text: Seq<u8>| #[trigger] n.active_after(text) == a
}

/// Whether no state leads to two states on one byte.
pub open spec fn deterministic(d: NfaModel) -> bool {
    forall|q: int, b: u8, t1: usize, t2: usize|
        0 <= q < d.states.len() && #[trigger] d.targets(q, b).contains(t1) && #[trigger] d.targets(
            q,
            b,
        ).contains(t2) ==> t1 == t2
}

/// The greatest rank of a state of `a` below `k`, or zero.
pub open spec fn top_rank(rank: Seq<nat>, a: Set<usize>, k: nat) -> nat
    decreases k,
{
    if k == 0 {
        0
    } else {
        let below = top_rank(rank, a, (k - 1) as nat);
        if a.contains((k - 1) as usize) && rank[k - 1] > below {
            rank[k - 1]
        } else {
            below
        }
    }
}

/// No state of `a` below `k` has a rank beyond the top rank, and the top
/// rank is within every bound on the ranks of these states.
pub proof fn lemma_top_rank(rank: Seq<nat>, a: Set<usize>, k: nat, bound: nat)
    requires
        k <= usize::MAX,
    ensures
        forall|s: usize| a.contains(s) && s < k ==> rank[s as int] <= top_rank(rank, a, k),
        (forall|s: usize| a.contains(s) && s < k ==> rank[s as int] <= bound) ==> top_rank(
            rank,
            a,
            k,
        ) <= bound,
    decreases k,
{
    if k > 0 {
        lemma_top_rank(rank, a, (k - 1) as nat, bound);
        let last = (k - 1) as usize;
        assert(last == k - 1);
        assert forall|s: usize| a.contains(s) && s < k implies rank[s as int] <= top_rank(
            rank,
            a,
            k,
        ) by {
            if s < k - 1 {
                assert(rank[s as int] <= top_rank(rank, a, (k - 1) as nat));
            }
        }
        if forall|s: usize| a.contains(s) && s < k ==> rank[s as int] <= bound {
            assert(forall|s: usize| a.contains(s) && s < k - 1 ==> rank[s as int] <= bound);
            if a.contains(last) {
                assert(rank[last as int] <= bound);
            }
        }
    }
}

/// One active state leads where its transitions lead.
pub proof fn lemma_step_single(m: NfaModel, q: usize, b: u8)
    requires
        q < m.states.len(),
    ensures
        m.step(set![q], b) == m.targets(q as int, b),
{
    assert forall|t: usize| m.step(set![q], b).contains(t) <==> m.targets(q as int, b).contains(
        t,
    ) by {
        if m.step(set![q], b).contains(t) {
            let s = choose|s: usize|
                set![q].contains(s) && s < m.states.len() && #[trigger] m.targets(
                    s as int,
                    b,
                ).contains(t);
            assert(s == q);
        }
        if m.targets(q as int, b).contains(t) {
            assert(set![q].contains(q));
        }
    }
    assert(m.step(set![q], b) =~= m.targets(q as int, b));
}

/// One active state ends what it ends.
pub proof fn lemma_ends_single(m: NfaModel, q: usize)
    requires
        q < m.states.len(),
    ensures
        m.ends_of(set![q]) == m.states[q as int].ends.to_set(),
{
    assert forall|p: usize| m.ends_of(set![q]).contains(p) <==> m.states[q as int].ends.to_set().contains(
        p,
    ) by {
        if m.ends_of(set![q]).contains(p) {
            let s = choose|s: usize|
                set![q].contains(s) && s < m.states.len() && #[trigger] m.states[s as int].ends.contains(
                    p,
                );
            assert(s == q);
        }
        if m.states[q as int].ends.contains(p) {
            assert(set![q].contains(q));
        }
    }
    assert(m.ends_of(set![q]) =~= m.states[q as int].ends.to_set());
}

/// From a dead set a step leads to a dead set, and nothing ends there.
pub proof fn lemma_dead(m: NfaModel, a: Set<usize>, b: u8)
    requires
        m.shaped(),
        dead(a),
    ensures
        dead(m.step(a, b)),
        m.ends_of(a) == Set::<usize>::empty(),
{
    assert forall|t: usize| m.step(a, b).contains(t) implies t == STUCK by {
        let s = choose|s: usize|
            a.contains(s) && s < m.states.len() && #[trigger] m.targets(s as int, b).contains(t);
        assert(m.targets(STUCK as int, b).contains(t));
    }
    assert forall|p: usize| !m.ends_of(a).contains(p) by {
        if m.ends_of(a).contains(p) {
            let s = choose|s: usize|
                a.contains(s) && s < m.states.len() && #[trigger] m.states[s as int].ends.contains(
                    p,
                );
            assert(m.states[STUCK as int].ends.contains(p));
        }
    }
    assert(m.ends_of(a) =~= Set::<usize>::empty());
}

/// On a byte outside the alphabet a step leads nowhere.
pub proof fn lemma_step_outside(m: NfaModel, a: Set<usize>, b: u8)
    requires
        m.shaped(),
        !m.alphabet.contains(b),
    ensures
        m.step(a, b) == Set::<usize>::empty(),
{
    assert forall|t: usize| !m.step(a, b).contains(t) by {
        if m.step(a, b).contains(t) {
            let s = choose|s: usize|
                a.contains(s) && s < m.states.len() && #[trigger] m.targets(s as int, b).contains(t);
            assert(m.targets(s as int, b).contains(t));
        }
    }
    assert(m.step(a, b) =~= Set::<usize>::empty());
}

/// What is known of a transition of an automaton under construction.
pub proof fn lemma_installed_target(
    d: NfaModel,
    n: NfaModel,
    subs: Seq<Set<usize>>,
    progress: Seq<int>,
    q: int,
    b: u8,
    t: usize,
)
    requires
        building(d, n, subs, progress),
        0 <= q < d.states.len(),
        d.targets(q, b).contains(t),
    ensures
        d.targets(q, b) == set![t],
        stands_for(subs, t, n.step(subs[q], b)),
        d.alphabet.contains(b),
        q != STUCK,
{
    let a = progress[q];
    assert(installed(d, n, subs, q, a));
    if !n.alphabet.take(a).contains(b) {
        assert(d.targets(q, b) == Set::<usize>::empty());
    }
    let i = choose|i: int| 0 <= i < n.alphabet.take(a).len() && n.alphabet.take(a)[i] == b;
    assert(n.alphabet[i] == b);
    assert(has_lead(d, n, subs, q, n.alphabet[i]));
    let q2 = choose|q2: usize| leads(d, n, subs, q, n.alphabet[i], q2);
    assert(leads(d, n, subs, q, b, q2));
    assert(set![q2].contains(t));
    if q == STUCK {
        assert(n.alphabet.take(0).len() == 0);
    }
}

/// An automaton under construction is well-formed at every moment.
pub proof fn lemma_building_wf(
    d: NfaModel,
    n: NfaModel,
    subs: Seq<Set<usize>>,
    progress: Seq<int>,
)
    requires
        n.wf(),
        building(d, n, subs, progress),
    ensures
        d.wf(),
        deterministic(d),
{
    let rank_n = n.the_rank();
    let size = n.states.len();
    let rank = Seq::new(
        d.states.len(),
        |q: int|
            if q == STUCK {
                0nat
            } else {
                top_rank(rank_n, subs[q], size)
            },
    );
    assert forall|q: int, b: u8, t: usize|
        0 <= q < d.states.len() && #[trigger] d.targets(q, b).contains(t) implies t
        < d.states.len() && d.alphabet.contains(b) && rank[t as int] <= rank[q] + 1 && q
        != STUCK by {
        lemma_installed_target(d, n, subs, progress, q, b, t);
        if t != STUCK {
            assert(subs[t as int] == n.step(subs[q], b));
            lemma_top_rank(rank_n, subs[q], size, 0);
            assert forall|s2: usize| subs[t as int].contains(s2) && s2 < size implies rank_n[s2 as int]
                <= rank[q] + 1 by {
                let s = choose|s: usize|
                    subs[q].contains(s) && s < n.states.len() && #[trigger] n.targets(
                        s as int,
                        b,
                    ).contains(s2);
                assert(n.targets(s as int, b).contains(s2));
                assert(rank_n[s as int] <= top_rank(rank_n, subs[q], size));
            }
            lemma_top_rank(rank_n, subs[t as int], size, (rank[q] + 1) as nat);
        }
    }
    assert forall|q: int, k: int|
        0 <= q < d.states.len() && 0 <= k < d.states[q].ends.len() implies (
    #[trigger] d.states[q].ends[k]) < d.dict.len() && d.dict[d.states[q].ends[k] as int].len()
        <= rank[q] by {
        let p = d.states[q].ends[k];
        assert(d.states[q].ends.contains(p));
        assert(d.states[q].ends.to_set().contains(p));
        assert(n.ends_of(subs[q]).contains(p));
        let s = choose|s: usize|
            subs[q].contains(s) && s < n.states.len() && #[trigger] n.states[s as int].ends.contains(
                p,
            );
        let e = n.states[s as int].ends;
        let j = choose|j: int| 0 <= j < e.len() && e[j] == p;
        assert(n.states[s as int].ends[j] < n.dict.len());
        assert(n.dict[n.states[s as int].ends[j] as int].len() <= rank_n[s as int]);
        if q == STUCK {
            assert(s == STUCK);
            assert(n.states[STUCK as int].ends.len() == 0);
        } else {
            lemma_top_rank(rank_n, subs[q], size, 0);
        }
    }
    let stuck_ends = d.states[STUCK as int].ends;
    if stuck_ends.len() > 0 {
        assert(stuck_ends[0] < d.dict.len() && d.dict[stuck_ends[0] as int].len() <= rank[STUCK as int]);
        let p = stuck_ends[0];
        assert(stuck_ends.contains(p));
        assert(stuck_ends.to_set().contains(p));
        assert(n.ends_of(subs[STUCK as int]).contains(p));
        let s = choose|s: usize|
            subs[STUCK as int].contains(s) && s < n.states.len()
                && #[trigger] n.states[s as int].ends.contains(p);
        assert(s == STUCK);
    }
    assert forall|b: u8, t: usize| #[trigger] d.targets(STUCK as int, b).contains(t) implies t
        == STUCK by {
        lemma_installed_target(d, n, subs, progress, STUCK as int, b, t);
    }
    assert(d.shaped());
    lemma_top_rank(rank_n, subs[START as int], size, 0);
    assert(rank[START as int] == 0);
    assert(is_rank(d, rank));
    assert forall|q: int, b: u8, t1: usize, t2: usize|
        0 <= q < d.states.len() && #[trigger] d.targets(q, b).contains(t1) && #[trigger] d.targets(
            q,
            b,
        ).contains(t2) implies t1 == t2 by {
        lemma_installed_target(d, n, subs, progress, q, b, t1);
    }
}

/// Whether the active states `da` of the subset automaton stand for the
/// active states `na` of the automaton it was built from.
pub open spec fn simulates(subs: Seq<Set<usize>>, da: Set<usize>, na: Set<usize>) -> bool {
    ||| da == Set::<usize>::empty() && dead(na)
    ||| exists|q: usize| da == set![q] && #[trigger] stands_for(subs, q, na)
}

/// After any text the subset automaton is in the state that stands for the
/// active states of the automaton it was built from.
pub proof fn lemma_subset_run(d: NfaModel, n: NfaModel, subs: Seq<Set<usize>>, text: Seq<u8>)
    requires
        n.wf(),
        subset_automaton(d, n, subs),
    ensures
        simulates(subs, d.active_after(text), n.active_after(text)),
    decreases text.len(),
{
    if text.len() == 0 {
        assert(stands_for(subs, START, set![START]));
    } else {
        let front = text.drop_last();
        let b = text.last();
        lemma_subset_run(d, n, subs, front);
        let da = d.active_after(front);
        let na = n.active_after(front);
        if da == Set::<usize>::empty() && dead(na) {
            d.lemma_step_none(b);
            lemma_dead(n, na, b);
        } else {
            let q = choose|q: usize| da == set![q] && #[trigger] stands_for(subs, q, na);
            lemma_step_single(d, q, b);
            assert(installed(d, n, subs, q as int, finished(d)[q as int]));
            if q == STUCK {
                assert(dead(na));
                lemma_dead(n, na, b);
                assert(n.alphabet.take(0).len() == 0);
                assert(d.targets(q as int, b) == Set::<usize>::empty());
            } else {
                assert(subs[q as int] == na);
                assert(n.alphabet.take(n.alphabet.len() as int) =~= n.alphabet);
                if n.alphabet.contains(b) {
                    let i = choose|i: int| 0 <= i < n.alphabet.len() && n.alphabet[i] == b;
                    assert(has_lead(d, n, subs, q as int, n.alphabet[i]));
                    let q2 = choose|q2: usize| leads(d, n, subs, q as int, n.alphabet[i], q2);
                    assert(stands_for(subs, q2, n.step(na, b)));
                    assert(d.step(da, b) == set![q2]);
                } else {
                    lemma_step_outside(n, na, b);
                    assert(d.targets(q as int, b) == Set::<usize>::empty());
                }
            }
        }
    }
}

/// The subset automaton reports for every text what the automaton reports
/// that it was built from.
pub proof fn lemma_subset_apply(d: NfaModel, n: NfaModel, subs: Seq<Set<usize>>, text: Seq<u8>)
    requires
        n.wf(),
        subset_automaton(d, n, subs),
    ensures
        d.accepted(text) == n.accepted(text),
        d.apply(text) == n.apply(text),
{
    lemma_subset_run(d, n, subs, text);
    let da = d.active_after(text);
    let na = n.active_after(text);
    if da == Set::<usize>::empty() && dead(na) {
        d.lemma_ends_of_none();
        lemma_dead(n, na, 0);
    } else {
        let q = choose|q: usize| da == set![q] && #[trigger] stands_for(subs, q, na);
        lemma_ends_single(d, q);
        assert(d.states[q as int].ends.to_set() == n.ends_of(subs[q as int]));
        if subs[q as int] != na {
            lemma_dead(n, na, 0);
            lemma_dead(n, subs[STUCK as int], 0);
        }
    }
}

} // verus!
