//! What the loops before and after a pattern do to what a trie reports.

use vstd::prelude::*;
use crate::model::NfaModel;
use crate::trie::{lemma_trie_active, trie_upto};
use crate::{START, STUCK};

verus! {

/// Whether `text` ends with `p`.
pub open spec fn ends_with(text: Seq<u8>, p: Seq<u8>) -> bool {
    p.len() <= text.len() && text.skip(text.len() - p.len()) == p
}

/// Whether `p` occurs in `text` as a run of adjacent bytes.
pub open spec fn occurs_in(p: Seq<u8>, text: Seq<u8>) -> bool {
    exists|k: int| 0 <= k && k + p.len() <= text.len() && #[trigger] text.subrange(k, k + p.len()) == p
}

/// Whether no pattern of `dict` is a beginning of `q` other than the empty
/// text and `q` itself.
pub open spec fn clean(dict: Seq<Seq<u8>>, q: Seq<u8>) -> bool {
    forall|j: int|
        0 <= j < dict.len() ==> !(0 < (#[trigger] dict[j]).len() < q.len() && dict[j].is_prefix_of(q))
}

/// Whether `other` has the states, pattern ends and dictionary of `m`, and
/// every transition of `m`.
pub open spec fn extends(m: NfaModel, other: NfaModel) -> bool {
    &&& other.states.len() == m.states.len()
    &&& other.dict == m.dict
    &&& forall|s: int| 0 <= s < m.states.len() ==> (#[trigger] other.states[s]).ends == m.states[s].ends
    &&& forall|s: int, b: u8, t: usize|
        0 <= s < m.states.len() && #[trigger] m.targets(s, b).contains(t) ==> other.targets(
            s,
            b,
        ).contains(t)
}

/// More transitions and more active states lead to more active states.
pub proof fn lemma_run_mono(
    m: NfaModel,
    other: NfaModel,
    small: Set<usize>,
    large: Set<usize>,
    text: Seq<u8>,
)
    requires
        extends(m, other),
        small.subset_of(large),
    ensures
        m.run(small, text).subset_of(other.run(large, text)),
    decreases text.len(),
{
    if text.len() > 0 {
        let front = text.drop_last();
        let b = text.last();
        lemma_run_mono(m, other, small, large, front);
        let a1 = m.run(small, front);
        let a2 = other.run(large, front);
        assert forall|t: usize| m.step(a1, b).contains(t) implies other.step(a2, b).contains(t) by {
            let z = choose|z: usize|
                a1.contains(z) && z < m.states.len() && #[trigger] m.targets(z as int, b).contains(
                    t,
                );
            assert(m.targets(z as int, b).contains(t));
            assert(a2.contains(z) && other.targets(z as int, b).contains(t));
        }
    }
}

/// More active states end more patterns.
pub proof fn lemma_ends_mono(m: NfaModel, other: NfaModel, small: Set<usize>, large: Set<usize>)
    requires
        extends(m, other),
        small.subset_of(large),
    ensures
        m.ends_of(small).subset_of(other.ends_of(large)),
{
    assert forall|p: usize| m.ends_of(small).contains(p) implies other.ends_of(large).contains(
        p,
    ) by {
        let z = choose|z: usize|
            small.contains(z) && z < m.states.len() && #[trigger] m.states[z as int].ends.contains(
                p,
            );
        assert(other.states[z as int].ends == m.states[z as int].ends);
        assert(large.contains(z) && other.states[z as int].ends.contains(p));
    }
}

/// The transitions of an automaton with a loop on the start state.
pub proof fn lemma_prefix_targets(m: NfaModel, z: int, b: u8, t: usize)
    requires
        m.shaped(),
        0 <= z < m.states.len(),
    ensures
        m.with_prefix_loop().targets(z, b).contains(t) <==> m.targets(z, b).contains(t) || (z
            == START && t == START),
        m.with_prefix_loop().states[z].ends == m.states[z].ends,
        m.with_prefix_loop().states.len() == m.states.len(),
        m.with_prefix_loop().dict == m.dict,
{
}

/// The transitions of an automaton with loops on the states that end a
/// pattern.
pub proof fn lemma_postfix_targets(m: NfaModel, z: int, b: u8, t: usize)
    requires
        m.shaped(),
        0 <= z < m.states.len(),
    ensures
        m.with_postfix_loops().targets(z, b).contains(t) <==> m.targets(z, b).contains(t) || (
        m.accepting(z) && t == z),
        m.with_postfix_loops().states[z].ends == m.states[z].ends,
        m.with_postfix_loops().states.len() == m.states.len(),
        m.with_postfix_loops().dict == m.dict,
{
}

/// A loop on the start state takes no transition away.
pub proof fn lemma_prefix_extends(m: NfaModel)
    requires
        m.shaped(),
    ensures
        extends(m, m.with_prefix_loop()),
{
    let other = m.with_prefix_loop();
    assert forall|s: int, b: u8, t: usize|
        0 <= s < m.states.len() && #[trigger] m.targets(s, b).contains(t) implies other.targets(
        s,
        b,
    ).contains(t) by {
        lemma_prefix_targets(m, s, b, t);
    }
    assert forall|s: int| 0 <= s < m.states.len() implies (#[trigger] other.states[s]).ends
        == m.states[s].ends by {
        lemma_prefix_targets(m, s, 0, 0);
    }
}

/// Loops on the states that end a pattern take no transition away.
pub proof fn lemma_postfix_extends(m: NfaModel)
    requires
        m.shaped(),
    ensures
        extends(m, m.with_postfix_loops()),
{
    let other = m.with_postfix_loops();
    assert forall|s: int, b: u8, t: usize|
        0 <= s < m.states.len() && #[trigger] m.targets(s, b).contains(t) implies other.targets(
        s,
        b,
    ).contains(t) by {
        lemma_postfix_targets(m, s, b, t);
    }
    assert forall|s: int| 0 <= s < m.states.len() implies (#[trigger] other.states[s]).ends
        == m.states[s].ends by {
        lemma_postfix_targets(m, s, 0, 0);
    }
}

/// To have every transition of another automaton carries over.
pub proof fn lemma_extends_trans(a: NfaModel, b: NfaModel, c: NfaModel)
    requires
        extends(a, b),
        extends(b, c),
    ensures
        extends(a, c),
{
    assert forall|s: int, x: u8, t: usize|
        0 <= s < a.states.len() && #[trigger] a.targets(s, x).contains(t) implies c.targets(
        s,
        x,
    ).contains(t) by {
        assert(b.targets(s, x).contains(t));
    }
    assert forall|s: int| 0 <= s < a.states.len() implies (#[trigger] c.states[s]).ends
        == a.states[s].ends by {
        assert(b.states[s].ends == a.states[s].ends);
    }
}

/// A state with a loop over every byte stays active once it is.
pub proof fn lemma_loop_stays(m: NfaModel, active: Set<usize>, s: usize, text: Seq<u8>)
    requires
        s < m.states.len(),
        active.contains(s),
        forall|b: u8| #[trigger] m.targets(s as int, b).contains(s),
    ensures
        m.run(active, text).contains(s),
    decreases text.len(),
{
    if text.len() > 0 {
        lemma_loop_stays(m, active, s, text.drop_last());
        assert(m.targets(s as int, text.last()).contains(s));
    }
}

/// What is known of a state that is active in a trie with both kinds of
/// loops, where no pattern is a proper beginning of the text that the
/// state stands for: the text that was read ends with it, or the state ends
/// a pattern and its text occurs in what was read.
pub proof fn lemma_looped_active(
    m: NfaModel,
    paths: Seq<Seq<u8>>,
    owners: Seq<int>,
    text: Seq<u8>,
    s: usize,
)
    requires
        m.shaped(),
        trie_upto(m, paths, owners, m.dict.len() as int, 0),
        m.with_prefix_loop().with_postfix_loops().active_after(text).contains(s),
    ensures
        s < m.states.len(),
        s != STUCK,
        s != START && clean(m.dict, paths[s as int]) ==> ends_with(text, paths[s as int]) || (
        m.accepting(s as int) && occurs_in(paths[s as int], text)),
    decreases text.len(),
{
    let mp = m.with_prefix_loop();
    let both = mp.with_postfix_loops();
    m.lemma_prefix_loop_wf_shape();
    if text.len() > 0 {
        let front = text.drop_last();
        let b = text.last();
        let before = both.active_after(front);
        let z = choose|z: usize|
            before.contains(z) && z < both.states.len() && #[trigger] both.targets(
                z as int,
                b,
            ).contains(s);
        lemma_looped_active(m, paths, owners, front, z);
        lemma_postfix_targets(mp, z as int, b, s);
        lemma_prefix_targets(m, z as int, b, s);
        assert(front.push(b) =~= text);
        let q = paths[s as int];
        if s != START && clean(m.dict, q) {
            if m.targets(z as int, b).contains(s) {
                assert(q == paths[z as int].push(b));
                let qz = paths[z as int];
                if z == START {
                    assert(text.skip(text.len() - 1) =~= q);
                } else {
                    // no pattern ends in `z`, and none is a proper beginning of its text
                    assert forall|j: int| 0 <= j < m.dict.len() implies !(0 < (
                    #[trigger] m.dict[j]).len() < qz.len() && m.dict[j].is_prefix_of(qz)) by {
                        if 0 < m.dict[j].len() < qz.len() && m.dict[j].is_prefix_of(qz) {
                            assert(q.subrange(0, m.dict[j].len() as int) =~= qz.subrange(
                                0,
                                m.dict[j].len() as int,
                            ));
                            assert(m.dict[j].is_prefix_of(q));
                        }
                    }
                    if m.accepting(z as int) {
                        let p = m.states[z as int].ends[0];
                        assert(m.states[z as int].ends.contains(p));
                        assert(m.dict[p as int] == qz);
                        assert(q.subrange(0, qz.len() as int) =~= qz);
                        assert(m.dict[p as int].is_prefix_of(q));
                        assert(qz.len() > 0);
                    }
                    assert(ends_with(front, qz));
                    assert(text.skip(text.len() - q.len()) =~= front.skip(front.len() - qz.len()).push(
                        b,
                    ));
                }
            } else {
                assert(s == z && m.accepting(z as int));
                if ends_with(front, q) {
                    assert(front.subrange(front.len() - q.len(), front.len() as int) =~= front.skip(
                        front.len() - q.len(),
                    ));
                    assert(text.subrange(front.len() - q.len(), front.len() - q.len() + q.len())
                        =~= front.subrange(front.len() - q.len(), front.len() as int));
                } else {
                    let k = choose|k: int|
                        0 <= k && k + q.len() <= front.len() && #[trigger] front.subrange(
                            k,
                            k + q.len(),
                        ) == q;
                    assert(text.subrange(k, k + q.len()) =~= front.subrange(k, k + q.len()));
                }
            }
        }
    }
}

/// In a trie with a loop on the start state the states that are active
/// after a text are those whose own text ends the text.
pub proof fn lemma_prefix_active(
    m: NfaModel,
    paths: Seq<Seq<u8>>,
    owners: Seq<int>,
    text: Seq<u8>,
    s: usize,
)
    requires
        m.shaped(),
        trie_upto(m, paths, owners, m.dict.len() as int, 0),
    ensures
        m.with_prefix_loop().active_after(text).contains(s) <==> s < m.states.len() && s != STUCK
            && ends_with(text, paths[s as int]),
    decreases text.len(),
{
    let looped = m.with_prefix_loop();
    lemma_prefix_extends(m);
    if looped.active_after(text).contains(s) {
        if text.len() == 0 {
            assert(text.skip(0) =~= paths[START as int]);
        } else {
            let front = text.drop_last();
            let b = text.last();
            let z = choose|z: usize|
                looped.active_after(front).contains(z) && z < looped.states.len()
                    && #[trigger] looped.targets(z as int, b).contains(s);
            lemma_prefix_active(m, paths, owners, front, z);
            lemma_prefix_targets(m, z as int, b, s);
            if m.targets(z as int, b).contains(s) {
                let q = paths[s as int];
                let qz = paths[z as int];
                assert(q == qz.push(b));
                assert(text.skip(text.len() - q.len()) =~= front.skip(front.len() - qz.len()).push(b));
            } else {
                assert(text.skip(text.len() as int) =~= paths[START as int]);
            }
        }
    }
    if s < m.states.len() && s != STUCK && ends_with(text, paths[s as int]) {
        let p = paths[s as int];
        let x = text.take(text.len() - p.len());
        assert(x + p =~= text);
        assert forall|b: u8| #[trigger] looped.targets(START as int, b).contains(START) by {
            lemma_prefix_targets(m, START as int, b, START);
        }
        lemma_loop_stays(looped, set![START], START, x);
        lemma_trie_active(m, paths, owners, p, s);
        lemma_run_mono(m, looped, set![START], looped.active_after(x), p);
        looped.lemma_run_concat(set![START], x, p);
    }
}

} // verus!
