//! What it means for an automaton to be the trie of a dictionary, and how a
//! trie grows while the patterns are inserted one byte at a time.

use vstd::prelude::*;
use crate::model::{blank_state, is_rank, NfaModel};
use crate::ordset::ascending;
use crate::{START, STUCK};

verus! {

/// Whether some state other than the start and the sink stands for `q`.
pub open spec fn has_state(paths: Seq<Seq<u8>>, q: Seq<u8>) -> bool {
    exists|s: int| 2 <= s < paths.len() && #[trigger] paths[s] == q
}

/// Whether pattern `o` is the first one that begins with `q`, among the
/// patterns up to `i`, of which pattern `i` counts with its first `j` bytes
/// only.
pub open spec fn owned(dict: Seq<Seq<u8>>, i: int, j: int, q: Seq<u8>, o: int) -> bool {
    &&& 0 <= o <= i
    &&& o < dict.len()
    &&& q.is_prefix_of(dict[o])
    &&& o == i ==> q.len() <= j
    &&& forall|p: int| 0 <= p < o ==> !q.is_prefix_of(#[trigger] dict[p])
}

/// Whether a text of length `len1` that pattern `o1` owns is met before one
/// of length `len2` that pattern `o2` owns: its owner is earlier, or the
/// same and the text shorter.
pub open spec fn met_before(o1: int, len1: nat, o2: int, len2: nat) -> bool {
    o1 < o2 || (o1 == o2 && len1 < len2)
}

/// Whether `m` is the trie of the first `i` patterns of its dictionary
/// and of the first `j` bytes of pattern `i`, where `paths[s]` is the text
/// that leads from the start to state `s`, and `owners[s]` the pattern for
/// which state `s` was made.
pub open spec fn trie_upto(
    m: NfaModel,
    paths: Seq<Seq<u8>>,
    owners: Seq<int>,
    i: int,
    j: int,
) -> bool {
    &&& 0 <= i <= m.dict.len()
    &&& 0 <= j
    &&& i < m.dict.len() ==> j <= m.dict[i].len()
    &&& i == m.dict.len() ==> j == 0
    &&& m.states.len() >= 2
    &&& paths.len() == m.states.len()
    &&& owners.len() == m.states.len()
    &&& paths[START as int] == Seq::<u8>::empty()
    &&& forall|s: int| 0 <= s < m.states.len() ==> (#[trigger] m.states[s]).targets.len() == 256
    &&& forall|s: int| 0 <= s < m.states.len() ==> ascending((#[trigger] m.states[s]).ends)
    &&& forall|s: int|
        2 <= s < paths.len() ==> (#[trigger] paths[s]).len() > 0 && owned(
            m.dict,
            i,
            j,
            paths[s],
            owners[s],
        )
    &&& forall|s: int, t: int|
        2 <= s < t < paths.len() ==> met_before(
            #[trigger] owners[s],
            paths[s].len(),
            #[trigger] owners[t],
            paths[t].len(),
        )
    &&& forall|p: int, k: int|
        0 <= p < i && 0 < k <= m.dict[p].len() ==> has_state(paths, #[trigger] m.dict[p].take(k))
    &&& forall|k: int| 0 < k <= j ==> has_state(paths, #[trigger] m.dict[i].take(k))
    &&& forall|s: int, b: u8, t: usize|
        0 <= s < m.states.len() ==> (#[trigger] m.targets(s, b).contains(t) <==> s != STUCK && 2
            <= t < paths.len() && paths[t as int] == paths[s].push(b))
    &&& forall|s: int, p: usize|
        0 <= s < m.states.len() ==> (#[trigger] m.states[s].ends.contains(p) <==> s != STUCK
            && p < i && m.dict[p as int] == paths[s])
}

/// Whether `m` is the trie of its dictionary: the start state stands for
/// the empty text, every other state but the sink for one non-empty prefix
/// of a pattern, each such prefix has its state, the states are numbered in
/// the order in which the patterns meet their prefixes, a transition adds
/// one byte, and a state ends the patterns that equal its text.
pub open spec fn is_trie(m: NfaModel) -> bool {
    exists|paths: Seq<Seq<u8>>, owners: Seq<int>|
        trie_upto(m, paths, owners, m.dict.len() as int, 0)
}

/// In a trie no two states but the sink stand for the same text.
pub proof fn lemma_trie_injective(
    m: NfaModel,
    paths: Seq<Seq<u8>>,
    owners: Seq<int>,
    i: int,
    j: int,
    s: int,
    t: int,
)
    requires
        trie_upto(m, paths, owners, i, j),
        0 <= s < paths.len(),
        0 <= t < paths.len(),
        s != STUCK,
        t != STUCK,
        paths[s] == paths[t],
    ensures
        s == t,
{
    if s != t {
        if s == START {
            assert(paths[t].len() > 0);
        } else if t == START {
            assert(paths[s].len() > 0);
        } else {
            let (lo, hi) = if s < t {
                (s, t)
            } else {
                (t, s)
            };
            assert(met_before(owners[lo], paths[lo].len(), owners[hi], paths[hi].len()));
            assert(owned(m.dict, i, j, paths[lo], owners[lo]));
            assert(owned(m.dict, i, j, paths[hi], owners[hi]));
            if owners[lo] < owners[hi] {
                assert(!paths[hi].is_prefix_of(m.dict[owners[lo]]));
            }
        }
    }
}

/// The trie before any pattern is inserted.
pub proof fn lemma_trie_empty(m: NfaModel)
    requires
        m.states =~= seq![blank_state(), blank_state()],
    ensures
        trie_upto(m, seq![Seq::<u8>::empty(), Seq::<u8>::empty()], seq![0int, 0int], 0, 0),
{
    let paths = seq![Seq::<u8>::empty(), Seq::<u8>::empty()];
    assert forall|s: int, b: u8, t: usize| 0 <= s < m.states.len() implies (#[trigger] m.targets(
        s,
        b,
    ).contains(t) <==> s != STUCK && 2 <= t < paths.len() && paths[t as int] == paths[s].push(
        b,
    )) by {
        assert(m.states[s] == blank_state());
    }
    assert forall|s: int, p: usize| 0 <= s < m.states.len() implies (
    #[trigger] m.states[s].ends.contains(p) <==> s != STUCK && p < 0 && m.dict[p as int]
        == paths[s]) by {
        assert(m.states[s] == blank_state());
    }
    assert forall|s: int| 0 <= s < m.states.len() implies ascending(
        (#[trigger] m.states[s]).ends,
    ) by {
        assert(m.states[s] == blank_state());
    }
    assert forall|s: int| 0 <= s < m.states.len() implies (#[trigger] m.states[s]).targets.len()
        == 256 by {
        assert(m.states[s] == blank_state());
    }
}

/// Following a transition that is there moves on by one byte of the
/// pattern.
pub proof fn lemma_trie_follow(
    m: NfaModel,
    paths: Seq<Seq<u8>>,
    owners: Seq<int>,
    i: int,
    j: int,
    cur: int,
    t: usize,
)
    requires
        trie_upto(m, paths, owners, i, j),
        i < m.dict.len(),
        j < m.dict[i].len(),
        0 <= cur < m.states.len(),
        cur != STUCK,
        paths[cur] == m.dict[i].take(j),
        m.targets(cur, m.dict[i][j]).contains(t),
    ensures
        trie_upto(m, paths, owners, i, j + 1),
        2 <= t < m.states.len(),
        paths[t as int] == m.dict[i].take(j + 1),
{
    let b = m.dict[i][j];
    assert(m.dict[i].take(j).push(b) =~= m.dict[i].take(j + 1));
    assert forall|k: int| 0 < k <= j + 1 implies has_state(paths, #[trigger] m.dict[i].take(k)) by {
        if k == j + 1 {
            assert(paths[t as int] == m.dict[i].take(k));
        }
    }
    assert forall|s: int| 2 <= s < paths.len() implies (#[trigger] paths[s]).len() > 0 && owned(
        m.dict,
        i,
        j + 1,
        paths[s],
        owners[s],
    ) by {
        assert(owned(m.dict, i, j, paths[s], owners[s]));
    }
}

/// Where no transition is there, a new state takes the next byte of the
/// pattern.
pub proof fn lemma_trie_grow(
    m: NfaModel,
    m2: NfaModel,
    paths: Seq<Seq<u8>>,
    owners: Seq<int>,
    i: int,
    j: int,
    cur: int,
)
    requires
        trie_upto(m, paths, owners, i, j),
        i < m.dict.len(),
        j < m.dict[i].len(),
        0 <= cur < m.states.len(),
        cur != STUCK,
        paths[cur] == m.dict[i].take(j),
        m.targets(cur, m.dict[i][j]) =~= Set::<usize>::empty(),
        m.states.len() <= usize::MAX,
        m2.dict == m.dict,
        m2.states.len() == m.states.len() + 1,
        m2.states[m.states.len() as int] == blank_state(),
        forall|s: int| 0 <= s < m.states.len() && s != cur ==> m2.states[s] == m.states[s],
        m2.states[cur].ends == m.states[cur].ends,
        m2.states[cur].targets == m.states[cur].targets.update(
            m.dict[i][j] as int,
            m.states[cur].targets[m.dict[i][j] as int].insert(m.states.len() as usize),
        ),
    ensures
        trie_upto(m2, paths.push(m.dict[i].take(j + 1)), owners.push(i), i, j + 1),
{
    let n = m.states.len() as int;
    let b = m.dict[i][j];
    let x = m.dict[i].take(j + 1);
    let paths2 = paths.push(x);
    let owners2 = owners.push(i);
    assert(m.dict[i].take(j).push(b) =~= x);
    assert(x.is_prefix_of(m.dict[i])) by {
        assert(m.dict[i].subrange(0, j + 1) =~= x);
    }
    // No state stands for the new text yet.
    assert(!has_state(paths, x)) by {
        if has_state(paths, x) {
            let s = choose|s: int| 2 <= s < paths.len() && #[trigger] paths[s] == x;
            assert(m.targets(cur, b).contains(s as usize));
        }
    }
    // So no earlier pattern begins with it.
    assert forall|p: int| 0 <= p < i implies !x.is_prefix_of(#[trigger] m.dict[p]) by {
        if x.is_prefix_of(m.dict[p]) {
            assert(m.dict[p].take(j + 1) =~= x);
            assert(has_state(paths, m.dict[p].take(j + 1)));
        }
    }
    assert(owned(m2.dict, i, j + 1, x, i));
    assert forall|s: int| 2 <= s < paths2.len() implies (#[trigger] paths2[s]).len() > 0 && owned(
        m2.dict,
        i,
        j + 1,
        paths2[s],
        owners2[s],
    ) by {
        if s < n {
            assert(paths2[s] == paths[s]);
            assert(owned(m.dict, i, j, paths[s], owners[s]));
        }
    }
    assert forall|s: int, t: int| 2 <= s < t < paths2.len() implies met_before(
        #[trigger] owners2[s],
        paths2[s].len(),
        #[trigger] owners2[t],
        paths2[t].len(),
    ) by {
        if t < n {
            assert(met_before(owners[s], paths[s].len(), owners[t], paths[t].len()));
        } else {
            assert(owned(m.dict, i, j, paths[s], owners[s]));
        }
    }
    assert forall|p: int, k: int| 0 <= p < i && 0 < k <= m2.dict[p].len() implies has_state(
        paths2,
        #[trigger] m2.dict[p].take(k),
    ) by {
        assert(has_state(paths, m.dict[p].take(k)));
        let s = choose|s: int| 2 <= s < paths.len() && #[trigger] paths[s] == m.dict[p].take(k);
        assert(paths2[s] == m.dict[p].take(k));
    }
    assert forall|k: int| 0 < k <= j + 1 implies has_state(
        paths2,
        #[trigger] m2.dict[i].take(k),
    ) by {
        if k == j + 1 {
            assert(paths2[n] == x);
        } else {
            assert(has_state(paths, m.dict[i].take(k)));
            let s = choose|s: int| 2 <= s < paths.len() && #[trigger] paths[s] == m.dict[i].take(k);
            assert(paths2[s] == m.dict[i].take(k));
        }
    }
    assert forall|s: int, c: u8, t: usize| 0 <= s < m2.states.len() implies (
    #[trigger] m2.targets(s, c).contains(t) <==> s != STUCK && 2 <= t < paths2.len()
        && paths2[t as int] == paths2[s].push(c)) by {
        let rhs = s != STUCK && 2 <= t < paths2.len() && paths2[t as int] == paths2[s].push(c);
        if s == n {
            assert(m2.targets(s, c) == Set::<usize>::empty());
            if rhs {
                assert(paths2[s].push(c).len() == j + 2);
                if t < n {
                    // an older state would stand for a text that begins with `x`
                    assert(owned(m.dict, i, j, paths[t as int], owners[t as int]));
                    let o = owners[t as int];
                    assert(o != i);
                    assert(paths[t as int].is_prefix_of(m.dict[o]));
                    assert(m.dict[o].subrange(0, j + 2) =~= paths[t as int]);
                    assert(m.dict[o].subrange(0, j + 1) =~= x) by {
                        assert forall|q: int| 0 <= q < j + 1 implies m.dict[o][q] == x[q] by {
                            assert(paths[t as int][q] == x.push(c)[q]);
                        }
                    }
                    assert(x.is_prefix_of(m.dict[o]));
                }
            }
        } else if s == cur && c == b {
            assert(m2.targets(s, c) == m.targets(s, c).insert(n as usize));
            if t == n {
            } else if t < n {
                assert(paths2[t as int] == paths[t as int]);
                assert(m.targets(s, c).contains(t) <==> s != STUCK && 2 <= t < paths.len()
                    && paths[t as int] == paths[s].push(c));
            }
        } else {
            assert(m2.targets(s, c) == m.targets(s, c)) by {
                if s == cur {
                    assert(c as int != b as int);
                } else {
                    assert(m2.states[s] == m.states[s]);
                }
            }
            assert(m.targets(s, c).contains(t) <==> s != STUCK && 2 <= t < paths.len()
                && paths[t as int] == paths[s].push(c));
            if t == n && rhs {
                // `x` ends with `b` and stands for one state only
                assert(paths[s].push(c) == x);
                assert(paths[s] =~= x.drop_last());
                assert(x.drop_last() =~= m.dict[i].take(j));
                assert(c == x.last());
                lemma_trie_injective(m, paths, owners, i, j, s, cur);
            }
        }
    }
    assert forall|s: int, p: usize| 0 <= s < m2.states.len() implies (
    #[trigger] m2.states[s].ends.contains(p) <==> s != STUCK && p < i && m2.dict[p as int]
        == paths2[s]) by {
        if s == n {
            assert(m2.states[s].ends.len() == 0);
            if p < i && m.dict[p as int] == x {
                assert(x.is_prefix_of(m.dict[p as int]));
            }
        } else {
            assert(m2.states[s].ends == m.states[s].ends);
            assert(m.states[s].ends.contains(p) <==> s != STUCK && p < i && m.dict[p as int]
                == paths[s]);
        }
    }
    assert forall|s: int| 0 <= s < m2.states.len() implies ascending(
        (#[trigger] m2.states[s]).ends,
    ) by {
        if s < n {
            assert(m2.states[s].ends == m.states[s].ends);
            assert(ascending(m.states[s].ends));
        }
    }
    assert forall|s: int| 0 <= s < m2.states.len() implies (#[trigger] m2.states[s]).targets.len()
        == 256 by {
        if s < n {
            assert(m.states[s].targets.len() == 256);
        }
    }
}

/// At the end of a pattern its number joins the state that stands for it.
pub proof fn lemma_trie_end(
    m: NfaModel,
    m2: NfaModel,
    paths: Seq<Seq<u8>>,
    owners: Seq<int>,
    i: int,
    cur: int,
)
    requires
        i < m.dict.len(),
        i <= usize::MAX,
        trie_upto(m, paths, owners, i, m.dict[i].len() as int),
        0 <= cur < m.states.len(),
        cur != STUCK,
        paths[cur] == m.dict[i],
        m2.dict == m.dict,
        m2.states.len() == m.states.len(),
        forall|s: int| 0 <= s < m.states.len() && s != cur ==> m2.states[s] == m.states[s],
        m2.states[cur].targets == m.states[cur].targets,
        m2.states[cur].ends == m.states[cur].ends.push(i as usize),
    ensures
        trie_upto(m2, paths, owners, i + 1, 0),
{
    assert forall|s: int| 2 <= s < paths.len() implies (#[trigger] paths[s]).len() > 0 && owned(
        m2.dict,
        i + 1,
        0,
        paths[s],
        owners[s],
    ) by {
        assert(owned(m.dict, i, m.dict[i].len() as int, paths[s], owners[s]));
    }
    assert forall|p: int, k: int| 0 <= p < i + 1 && 0 < k <= m2.dict[p].len() implies has_state(
        paths,
        #[trigger] m2.dict[p].take(k),
    ) by {
        if p == i {
            assert(has_state(paths, m.dict[i].take(k)));
        }
    }
    assert forall|s: int, c: u8, t: usize| 0 <= s < m2.states.len() implies (
    #[trigger] m2.targets(s, c).contains(t) <==> s != STUCK && 2 <= t < paths.len()
        && paths[t as int] == paths[s].push(c)) by {
        assert(m2.targets(s, c) == m.targets(s, c));
        assert(m.targets(s, c).contains(t) <==> s != STUCK && 2 <= t < paths.len()
            && paths[t as int] == paths[s].push(c));
    }
    assert forall|s: int, p: usize| 0 <= s < m2.states.len() implies (
    #[trigger] m2.states[s].ends.contains(p) <==> s != STUCK && p < i + 1 && m2.dict[p as int]
        == paths[s]) by {
        assert(m.states[s].ends.contains(p) <==> s != STUCK && p < i && m.dict[p as int]
            == paths[s]);
        if s == cur {
            let e = m.states[cur].ends;
            let e2 = m2.states[cur].ends;
            if e2.contains(p) {
                let k = choose|k: int| 0 <= k < e2.len() && e2[k] == p;
                if k < e.len() {
                    assert(e[k] == p);
                }
            }
            if e.contains(p) {
                let k = choose|k: int| 0 <= k < e.len() && e[k] == p;
                assert(e2[k] == p);
            }
            if p == i {
                assert(e2[e.len() as int] == p);
            }
        } else {
            assert(m2.states[s] == m.states[s]);
            if p == i && s != STUCK && m.dict[i] == paths[s] {
                lemma_trie_injective(m, paths, owners, i, m.dict[i].len() as int, s, cur);
            }
        }
    }
    assert forall|s: int| 0 <= s < m2.states.len() implies ascending(
        (#[trigger] m2.states[s]).ends,
    ) by {
        assert(ascending(m.states[s].ends));
        if s == cur {
            let e = m.states[cur].ends;
            let e2 = m2.states[cur].ends;
            assert forall|a: int, c: int| 0 <= a < c < e2.len() implies e2[a] < e2[c] by {
                if c == e.len() {
                    assert(e.contains(e[a]));
                    assert(m.states[cur].ends.contains(e[a]));
                }
            }
        } else {
            assert(m2.states[s] == m.states[s]);
        }
    }
    assert forall|s: int| 0 <= s < m2.states.len() implies (#[trigger] m2.states[s]).targets.len()
        == 256 by {
        assert(m.states[s].targets.len() == 256);
        if s != cur {
            assert(m2.states[s] == m.states[s]);
        }
    }
}

/// Whether byte `b` occurs in one of the first `i` patterns or among the
/// first `j` bytes of pattern `i`.
pub open spec fn occurs_upto(dict: Seq<Seq<u8>>, i: int, j: int, b: u8) -> bool {
    exists|p: int, k: int|
        0 <= p <= i && p < dict.len() && 0 <= k < dict[p].len() && (p == i ==> k < j)
            && #[trigger] dict[p][k] == b
}

/// Whether byte `b` occurs in the dictionary.
pub open spec fn occurs(dict: Seq<Seq<u8>>, b: u8) -> bool {
    occurs_upto(dict, dict.len() as int, 0, b)
}

/// A trie over the bytes of its dictionary is a well-formed automaton.
pub proof fn lemma_trie_wf(m: NfaModel, paths: Seq<Seq<u8>>, owners: Seq<int>)
    requires
        trie_upto(m, paths, owners, m.dict.len() as int, 0),
        m.states.len() <= usize::MAX,
        m.dict.len() <= usize::MAX,
        forall|i: int, j: int| 0 <= i < j < m.alphabet.len() ==> m.alphabet[i] < m.alphabet[j],
        forall|b: u8| occurs(m.dict, b) ==> m.alphabet.contains(b),
    ensures
        m.wf(),
{
    let n = m.dict.len() as int;
    assert forall|s: int, b: u8, t: usize|
        0 <= s < m.states.len() && #[trigger] m.targets(s, b).contains(t) implies t
        < m.states.len() && m.alphabet.contains(b) by {
        assert(owned(m.dict, n, 0, paths[t as int], owners[t as int]));
        let o = owners[t as int];
        let k = paths[s].len() as int;
        assert(paths[t as int][k] == b);
        assert(m.dict[o].subrange(0, paths[t as int].len() as int)[k] == b);
        assert(m.dict[o][k] == b);
        assert(occurs(m.dict, b));
    }
    let stuck_ends = m.states[STUCK as int].ends;
    if stuck_ends.len() > 0 {
        assert(stuck_ends.contains(stuck_ends[0]));
    }
    assert forall|s: int, k: int|
        0 <= s < m.states.len() && 0 <= k < m.states[s].ends.len() implies #[trigger] m.states[s].ends[k]
        < m.dict.len() by {
        assert(m.states[s].ends.contains(m.states[s].ends[k]));
    }
    assert(m.shaped());
    let rank = Seq::new(m.states.len(), |s: int| paths[s].len());
    assert forall|s: int, k: int|
        0 <= s < m.states.len() && 0 <= k < m.states[s].ends.len() implies m.dict[(
    #[trigger] m.states[s].ends[k]) as int].len() <= rank[s] by {
        assert(m.states[s].ends.contains(m.states[s].ends[k]));
    }
    assert(is_rank(m, rank));
}

/// In a trie every text that a state stands for is the beginning of a text
/// of another state, or of the start state.
pub proof fn lemma_trie_parent(m: NfaModel, paths: Seq<Seq<u8>>, owners: Seq<int>, s: int)
    requires
        trie_upto(m, paths, owners, m.dict.len() as int, 0),
        2 <= s < paths.len(),
    ensures
        exists|z: int|
            0 <= z < paths.len() && z != STUCK && #[trigger] paths[z] == paths[s].drop_last(),
{
    let q = paths[s];
    let front = q.drop_last();
    assert(owned(m.dict, m.dict.len() as int, 0, q, owners[s]));
    let o = owners[s];
    if front.len() == 0 {
        assert(paths[START as int] =~= front);
    } else {
        assert(m.dict[o].take(front.len() as int) =~= front);
        assert(has_state(paths, m.dict[o].take(front.len() as int)));
        let z = choose|z: int| 2 <= z < paths.len() && #[trigger] paths[z] == front;
        assert(paths[z] == front);
    }
}

/// In a trie the states that are active after a text are those that stand
/// for the text: one at most.
pub proof fn lemma_trie_active(
    m: NfaModel,
    paths: Seq<Seq<u8>>,
    owners: Seq<int>,
    text: Seq<u8>,
    s: usize,
)
    requires
        trie_upto(m, paths, owners, m.dict.len() as int, 0),
        m.states.len() <= usize::MAX,
    ensures
        m.active_after(text).contains(s) <==> s < paths.len() && s != STUCK && paths[s as int]
            == text,
    decreases text.len(),
{
    if text.len() == 0 {
        if s < paths.len() && s != STUCK && paths[s as int] == text {
            if s != START {
                assert(paths[s as int].len() > 0);
            }
        }
        if s == START {
            assert(paths[s as int] =~= text);
        }
    } else {
        let front = text.drop_last();
        let b = text.last();
        let before = m.active_after(front);
        if m.active_after(text).contains(s) {
            let z = choose|z: usize|
                before.contains(z) && z < m.states.len() && #[trigger] m.targets(
                    z as int,
                    b,
                ).contains(s);
            lemma_trie_active(m, paths, owners, front, z);
            assert(m.targets(z as int, b).contains(s));
            assert(paths[s as int] == paths[z as int].push(b));
            assert(front.push(b) =~= text);
        }
        if s < paths.len() && s != STUCK && paths[s as int] == text {
            assert(s != START);
            lemma_trie_parent(m, paths, owners, s as int);
            let z = choose|z: int|
                0 <= z < paths.len() && z != STUCK && #[trigger] paths[z] == paths[s as int].drop_last();
            lemma_trie_active(m, paths, owners, front, z as usize);
            assert(paths[z].push(b) =~= text);
            assert(m.targets(z, b).contains(s));
            assert(before.contains(z as usize) && m.targets(z as usize as int, b).contains(s));
        }
    }
}

/// A trie reports for a text the patterns that equal it.
pub proof fn lemma_trie_accepted(m: NfaModel, text: Seq<u8>, i: usize)
    requires
        is_trie(m),
        m.states.len() <= usize::MAX,
    ensures
        m.accepted(text).contains(i) <==> i < m.dict.len() && m.dict[i as int] == text,
{
    let (paths, owners) = choose|paths: Seq<Seq<u8>>, owners: Seq<int>|
        trie_upto(m, paths, owners, m.dict.len() as int, 0);
    let active = m.active_after(text);
    if m.accepted(text).contains(i) {
        let s = choose|s: usize|
            active.contains(s) && s < m.states.len() && #[trigger] m.states[s as int].ends.contains(
                i,
            );
        lemma_trie_active(m, paths, owners, text, s);
        assert(m.states[s as int].ends.contains(i));
    }
    if i < m.dict.len() && m.dict[i as int] == text {
        if text.len() == 0 {
            lemma_trie_active(m, paths, owners, text, START);
            assert(paths[START as int] =~= text);
            assert(m.states[START as int].ends.contains(i));
            assert(active.contains(START));
        } else {
            assert(m.dict[i as int].take(text.len() as int) =~= text);
            assert(has_state(paths, m.dict[i as int].take(text.len() as int)));
            let s = choose|s: int| 2 <= s < paths.len() && #[trigger] paths[s] == text;
            lemma_trie_active(m, paths, owners, text, s as usize);
            assert(m.states[s].ends.contains(i));
            assert(active.contains(s as usize) && m.states[s as usize as int].ends.contains(i));
        }
    }
}

} // verus!
