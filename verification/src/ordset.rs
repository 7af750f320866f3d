//! Finite sets of state or pattern numbers, stored as vectors in strictly
//! ascending order.  Two such vectors hold the same set exactly when they are
//! equal, so a vector doubles as a canonical lookup key for the set.

use vstd::prelude::*;

verus! {

/// Whether `s` lists its items in strictly ascending order.
pub open spec fn ascending(s: Seq<usize>) -> bool {
    forall|i: int, j: int| 0 <= i < j < s.len() ==> s[i] < s[j]
}

/// The members of `s` below `bound`, in ascending order.
pub open spec fn listing(s: Set<usize>, bound: nat) -> Seq<usize>
    decreases bound,
{
    if bound == 0 {
        Seq::empty()
    } else {
        let rest = listing(s, (bound - 1) as nat);
        if s.contains((bound - 1) as usize) {
            rest.push((bound - 1) as usize)
        } else {
            rest
        }
    }
}

/// A listing is ascending and holds the members below the bound, no more.
pub proof fn lemma_listing(s: Set<usize>, bound: nat)
    requires
        bound <= usize::MAX + 1,
    ensures
        ascending(listing(s, bound)),
        forall|x: usize| listing(s, bound).contains(x) <==> s.contains(x) && x < bound,
    decreases bound,
{
    let q = listing(s, bound);
    if bound == 0 {
        assert(q.len() == 0);
    } else {
        let rest = listing(s, (bound - 1) as nat);
        let top = (bound - 1) as usize;
        lemma_listing(s, (bound - 1) as nat);
        assert(top == bound - 1);
        assert forall|x: usize| rest.contains(x) <==> s.contains(x) && x < top by {
            assert(rest.contains(x) <==> s.contains(x) && x < (bound - 1) as nat);
        }
        if s.contains(top) {
            assert(q == rest.push(top));
            assert forall|i: int, j: int| 0 <= i < j < q.len() implies q[i] < q[j] by {
                if j == rest.len() {
                    assert(rest.contains(rest[i]));
                    assert(q[i] == rest[i]);
                    assert(q[j] == top);
                } else {
                    assert(q[i] == rest[i]);
                    assert(q[j] == rest[j]);
                }
            }
            assert forall|x: usize| q.contains(x) <==> s.contains(x) && x < bound by {
                if q.contains(x) {
                    let k = choose|k: int| 0 <= k < q.len() && q[k] == x;
                    if k < rest.len() {
                        assert(rest[k] == x);
                        assert(rest.contains(x));
                    }
                }
                if s.contains(x) && x < bound {
                    if x == top {
                        assert(q[rest.len() as int] == x);
                    } else {
                        assert(rest.contains(x));
                        let k = choose|k: int| 0 <= k < rest.len() && rest[k] == x;
                        assert(q[k] == x);
                    }
                }
            }
        } else {
            assert(q == rest);
            assert forall|x: usize| q.contains(x) <==> s.contains(x) && x < bound by {}
        }
    }
}

/// An ascending sequence is determined by the set of its items.
pub proof fn lemma_ascending_unique(a: Seq<usize>, b: Seq<usize>)
    requires
        ascending(a),
        ascending(b),
        a.to_set() == b.to_set(),
    ensures
        a == b,
    decreases a.len(),
{
    if a.len() == 0 {
        if b.len() > 0 {
            assert(b.contains(b[0]));
            assert(b.to_set().contains(b[0]));
            assert(a.contains(b[0]));
        }
        assert(a =~= b);
    } else {
        assert(a.contains(a.last()));
        assert(a.to_set().contains(a.last()));
        assert(b.contains(a.last()));
        let kb = choose|k: int| 0 <= k < b.len() && b[k] == a.last();
        assert(b.contains(b.last()));
        assert(b.to_set().contains(b.last()));
        assert(a.contains(b.last()));
        let ka = choose|k: int| 0 <= k < a.len() && a[k] == b.last();
        assert(a.last() == b.last());
        let a0 = a.drop_last();
        let b0 = b.drop_last();
        assert forall|x: usize| a0.to_set().contains(x) <==> b0.to_set().contains(x) by {
            if a0.contains(x) {
                let i = choose|i: int| 0 <= i < a0.len() && a0[i] == x;
                assert(a[i] == x);
                assert(a.contains(x));
                assert(b.to_set().contains(x));
                let j = choose|j: int| 0 <= j < b.len() && b[j] == x;
                assert(j < b.len() - 1);
                assert(b0[j] == x);
            }
            if b0.contains(x) {
                let i = choose|i: int| 0 <= i < b0.len() && b0[i] == x;
                assert(b[i] == x);
                assert(b.contains(x));
                assert(a.to_set().contains(x));
                let j = choose|j: int| 0 <= j < a.len() && a[j] == x;
                assert(j < a.len() - 1);
                assert(a0[j] == x);
            }
        }
        assert(a0.to_set() =~= b0.to_set());
        lemma_ascending_unique(a0, b0);
        assert(a =~= a0.push(a.last()));
        assert(b =~= b0.push(b.last()));
    }
}

/// An ascending sequence of the members of `s` below `bound` is their
/// listing.
pub proof fn lemma_listing_unique(q: Seq<usize>, s: Set<usize>, bound: nat)
    requires
        bound <= usize::MAX + 1,
        ascending(q),
        forall|x: usize| q.contains(x) <==> s.contains(x) && x < bound,
    ensures
        q == listing(s, bound),
{
    lemma_listing(s, bound);
    let l = listing(s, bound);
    assert forall|x: usize| q.to_set().contains(x) <==> l.to_set().contains(x) by {}
    assert(q.to_set() =~= l.to_set());
    lemma_ascending_unique(q, l);
}

/// Whether the ascending vector `v` holds `x`.
pub fn contains(v: &Vec<usize>, x: usize) -> (r: bool)
    ensures
        r == v@.contains(x),
{
    let mut i: usize = 0;
    while i < v.len()
        invariant
            i <= v.len(),
            forall|k: int| 0 <= k < i ==> v@[k] != x,
        decreases v.len() - i,
    {
        if v[i] == x {
            return true;
        }
        i += 1;
    }
    false
}

/// Adds `x` to the set held in `v`, keeping the order; returns whether `x`
/// was new.
pub fn insert(v: &mut Vec<usize>, x: usize) -> (added: bool)
    requires
        ascending(old(v)@),
    ensures
        ascending(final(v)@),
        final(v)@.to_set() == old(v)@.to_set().insert(x),
        added == !old(v)@.contains(x),
        !added ==> final(v)@ == old(v)@,
        added ==> final(v)@.len() == old(v)@.len() + 1,
{
    let ghost before = v@;
    let mut i: usize = 0;
    while i < v.len() && v[i] < x
        invariant
            v@ == before,
            i <= v.len(),
            forall|k: int| 0 <= k < i ==> v@[k] < x,
        decreases v.len() - i,
    {
        i += 1;
    }
    if i < v.len() && v[i] == x {
        proof {
            assert(before.contains(x));
            assert(before.to_set().insert(x) =~= before.to_set());
        }
        return false;
    }
    v.insert(i, x);
    proof {
        let after = v@;
        assert(after == before.insert(i as int, x));
        assert forall|a: int, b: int| 0 <= a < b < after.len() implies after[a] < after[b] by {
            if a < i && b == i {
            } else if a < i && b > i {
                assert(after[b] == before[b - 1]);
            } else if a == i {
                assert(after[b] == before[b - 1]);
            } else if a > i {
                assert(after[a] == before[a - 1]);
                assert(after[b] == before[b - 1]);
            }
        }
        assert(!before.contains(x)) by {
            if before.contains(x) {
                let k = choose|k: int| 0 <= k < before.len() && before[k] == x;
                if k < i {
                } else {
                }
            }
        }
        assert forall|y: usize| after.to_set().contains(y) <==> before.to_set().insert(x).contains(
            y,
        ) by {
            if after.contains(y) {
                let k = choose|k: int| 0 <= k < after.len() && after[k] == y;
                if k < i {
                    assert(before[k] == y);
                } else if k > i {
                    assert(before[k - 1] == y);
                }
            }
            if before.contains(y) {
                let k = choose|k: int| 0 <= k < before.len() && before[k] == y;
                if k < i {
                    assert(after[k] == y);
                } else {
                    assert(after[k + 1] == y);
                }
            }
            if y == x {
                assert(after[i as int] == y);
            }
        }
        assert(after.to_set() =~= before.to_set().insert(x));
    }
    true
}

/// Adds every item of `src` to the set held in `dst`.
pub fn union_into(dst: &mut Vec<usize>, src: &Vec<usize>)
    requires
        ascending(old(dst)@),
    ensures
        ascending(final(dst)@),
        final(dst)@.to_set() == old(dst)@.to_set().union(src@.to_set()),
{
    let ghost before = dst@;
    let mut i: usize = 0;
    while i < src.len()
        invariant
            i <= src.len(),
            ascending(dst@),
            dst@.to_set() == before.to_set().union(src@.take(i as int).to_set()),
        decreases src.len() - i,
    {
        let ghost prev = dst@;
        insert(dst, src[i]);
        proof {
            let t0 = src@.take(i as int);
            let t1 = src@.take(i as int + 1);
            assert(t1 =~= t0.push(src@[i as int]));
            assert forall|y: usize| t1.to_set().contains(y) <==> t0.to_set().insert(
                src@[i as int],
            ).contains(y) by {
                if t1.contains(y) {
                    let k = choose|k: int| 0 <= k < t1.len() && t1[k] == y;
                    if k < i {
                        assert(t0[k] == y);
                    }
                }
                if t0.contains(y) {
                    let k = choose|k: int| 0 <= k < t0.len() && t0[k] == y;
                    assert(t1[k] == y);
                }
                if y == src@[i as int] {
                    assert(t1[i as int] == y);
                }
            }
            assert(t1.to_set() =~= t0.to_set().insert(src@[i as int]));
            assert(dst@.to_set() =~= before.to_set().union(t1.to_set()));
        }
        i += 1;
    }
    proof {
        assert(src@.take(src@.len() as int) =~= src@);
    }
}

/// Whether two vectors hold the same items in the same order.
pub fn same(a: &Vec<usize>, b: &Vec<usize>) -> (r: bool)
    ensures
        r == (a@ == b@),
{
    if a.len() != b.len() {
        return false;
    }
    let mut i: usize = 0;
    while i < a.len()
        invariant
            a.len() == b.len(),
            i <= a.len(),
            forall|k: int| 0 <= k < i ==> a@[k] == b@[k],
        decreases a.len() - i,
    {
        if a[i] != b[i] {
            return false;
        }
        i += 1;
    }
    proof {
        assert(a@ =~= b@);
    }
    true
}

/// The set of the first `k + 1` items is that of the first `k` and item `k`.
pub proof fn lemma_take_to_set(s: Seq<usize>, k: int)
    requires
        0 <= k < s.len(),
    ensures
        s.take(k + 1).to_set() == s.take(k).to_set().insert(s[k]),
{
    let t0 = s.take(k);
    let t1 = s.take(k + 1);
    assert forall|y: usize| t1.to_set().contains(y) <==> t0.to_set().insert(s[k]).contains(y) by {
        if t1.contains(y) {
            let i = choose|i: int| 0 <= i < t1.len() && t1[i] == y;
            if i < k {
                assert(t0[i] == y);
            }
        }
        if t0.contains(y) {
            let i = choose|i: int| 0 <= i < t0.len() && t0[i] == y;
            assert(t1[i] == y);
        }
        if y == s[k] {
            assert(t1[k] == y);
        }
    }
    assert(t1.to_set() =~= t0.to_set().insert(s[k]));
}

/// A sequence of one item holds that item only.
pub proof fn lemma_single_to_set(x: usize)
    ensures
        seq![x].to_set() == set![x],
        ascending(seq![x]),
{
    assert forall|y: usize| seq![x].to_set().contains(y) <==> set![x].contains(y) by {
        if y == x {
            assert(seq![x][0] == y);
        }
    }
    assert(seq![x].to_set() =~= set![x]);
}

/// An empty sequence holds nothing.
pub proof fn lemma_empty_to_set()
    ensures
        Seq::<usize>::empty().to_set() == Set::<usize>::empty(),
{
    assert(Seq::<usize>::empty().to_set() =~= Set::<usize>::empty());
}

} // verus!
