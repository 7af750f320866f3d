//! The powerset construction: from a nondeterministic automaton to the
//! deterministic automaton whose states stand for sets of its states.

use vstd::prelude::*;
use crate::model::{blank_state, NfaModel, StateModel};
use crate::nfa::{model_of, texts, NFAState, NFA};
use crate::ordset;
use crate::ordset::{ascending, lemma_ascending_unique, lemma_single_to_set};
use crate::subsets::{
    all_reached, building, dead, deterministic, finished, has_lead, installed, is_reached, leads,
    lemma_building_wf,
    lemma_ends_single, lemma_subset_apply, stands_for, subset_automaton,
};
use crate::{START, STUCK};

verus! {

/// The sets of numbers below `n`.
pub open spec fn subsets_below(n: nat) -> Set<Set<usize>>
    decreases n,
{
    if n == 0 {
        set![Set::<usize>::empty()]
    } else {
        let smaller = subsets_below((n - 1) as nat);
        smaller.union(smaller.map(|s: Set<usize>| s.insert((n - 1) as usize)))
    }
}

/// There are finitely many sets of numbers below `n`.
pub proof fn lemma_subsets_finite(n: nat)
    ensures
        subsets_below(n).finite(),
    decreases n,
{
    if n > 0 {
        let smaller = subsets_below((n - 1) as nat);
        lemma_subsets_finite((n - 1) as nat);
        smaller.lemma_map_finite(|s: Set<usize>| s.insert((n - 1) as usize));
    }
}

/// Every set of numbers below `n` is among them.
pub proof fn lemma_subsets_complete(n: nat, a: Set<usize>)
    requires
        n <= usize::MAX,
        forall|x: usize| a.contains(x) ==> x < n,
    ensures
        subsets_below(n).contains(a),
    decreases n,
{
    if n == 0 {
        assert(a =~= Set::<usize>::empty());
    } else {
        let top = (n - 1) as usize;
        let smaller = subsets_below((n - 1) as nat);
        let rest = a.remove(top);
        lemma_subsets_complete((n - 1) as nat, rest);
        if a.contains(top) {
            let f = |s: Set<usize>| s.insert((n - 1) as usize);
            assert(f(rest) =~= a);
            assert(smaller.map(f).contains(a));
        } else {
            assert(rest =~= a);
        }
    }
}

/// The sets of states that the keys hold.
pub open spec fn key_sets(keys: Seq<Vec<usize>>) -> Seq<Set<usize>> {
    Seq::new(keys.len(), |q: int| keys[q]@.to_set())
}

/// A subset automaton has no more states than there are sets of states of
/// the automaton it is built from.
pub proof fn lemma_building_count(
    d: NfaModel,
    n: NfaModel,
    subs: Seq<Set<usize>>,
    progress: Seq<int>,
)
    requires
        n.shaped(),
        building(d, n, subs, progress),
    ensures
        d.states.len() <= subsets_below(n.states.len()).len(),
{
    let all = subsets_below(n.states.len());
    lemma_subsets_finite(n.states.len());
    assert(subs.no_duplicates());
    subs.unique_seq_to_set();
    assert forall|a: Set<usize>| subs.to_set().contains(a) implies all.contains(a) by {
        let q = choose|q: int| 0 <= q < subs.len() && subs[q] == a;
        assert(n.inside(subs[q]));
        lemma_subsets_complete(n.states.len(), a);
    }
    vstd::set_lib::lemma_len_subset(subs.to_set(), all);
}

/// The subset automaton before any transition is made: a start state that
/// ends what the start state ends, and a sink.
pub proof fn lemma_building_init(d: NfaModel, n: NfaModel)
    requires
        n.shaped(),
        d.dict == n.dict,
        d.alphabet == n.alphabet,
        d.states =~= seq![
            StateModel { targets: blank_state().targets, ends: n.states[START as int].ends },
            blank_state(),
        ],
    ensures
        building(d, n, seq![set![START], set![STUCK]], seq![0int, 0int]),
{
    let subs = seq![set![START], set![STUCK]];
    lemma_ends_single(n, START);
    lemma_ends_single(n, STUCK);
    assert(subs[0].contains(START));
    assert(!subs[1].contains(START));
    assert(n.states[STUCK as int].ends =~= Seq::<usize>::empty());
    assert forall|q: int| 0 <= q < d.states.len() implies installed(d, n, subs, q, 0) by {
        assert forall|b: u8| #[trigger] d.targets(q, b) == Set::<usize>::empty() by {}
    }
    assert(ascending(n.states[START as int].ends));
}

/// A new state for a set of states that has none yet.
pub proof fn lemma_building_push(
    d: NfaModel,
    d2: NfaModel,
    n: NfaModel,
    subs: Seq<Set<usize>>,
    progress: Seq<int>,
    key: Set<usize>,
)
    requires
        building(d, n, subs, progress),
        d2.states.len() <= usize::MAX,
        d2.dict == d.dict,
        d2.alphabet == d.alphabet,
        d2.states.len() == d.states.len() + 1,
        forall|q: int| 0 <= q < d.states.len() ==> d2.states[q] == d.states[q],
        d2.states[d.states.len() as int].targets == blank_state().targets,
        ascending(d2.states[d.states.len() as int].ends),
        d2.states[d.states.len() as int].ends.to_set() == n.ends_of(key),
        n.inside(key),
        forall|q: int| 0 <= q < subs.len() ==> subs[q] != key,
    ensures
        building(d2, n, subs.push(key), progress.push(0)),
{
    let subs2 = subs.push(key);
    let progress2 = progress.push(0);
    let fresh = d.states.len() as int;
    assert forall|q: int| 0 <= q < d2.states.len() implies 0 <= #[trigger] progress2[q]
        <= n.alphabet.len() && installed(d2, n, subs2, q, progress2[q]) by {
        if q < fresh {
            let a = progress[q];
            assert(progress2[q] == a);
            assert(0 <= a <= n.alphabet.len());
            assert(d2.states[q] == d.states[q]);
            assert(installed(d, n, subs, q, a));
            assert forall|i: int| 0 <= i < a implies has_lead(
                d2,
                n,
                subs2,
                q,
                #[trigger] n.alphabet[i],
            ) by {
                assert(has_lead(d, n, subs, q, n.alphabet[i]));
                let q2 = choose|q2: usize| leads(d, n, subs, q, n.alphabet[i], q2);
                assert(d2.targets(q, n.alphabet[i]) == d.targets(q, n.alphabet[i]));
                assert(subs2[q] == subs[q]);
                assert(subs2[q2 as int] == subs[q2 as int]);
                assert(leads(d2, n, subs2, q, n.alphabet[i], q2));
            }
            assert forall|b: u8| !n.alphabet.take(a).contains(b) implies #[trigger] d2.targets(q, b)
                == Set::<usize>::empty() by {
                assert(d2.targets(q, b) == d.targets(q, b));
            }
            assert(installed(d2, n, subs2, q, a));
        } else {
            assert(q == fresh);
            assert(progress2[q] == 0);
            assert forall|b: u8| #[trigger] d2.targets(q, b) == Set::<usize>::empty() by {
                assert(d2.states[q].targets[b as int] == blank_state().targets[b as int]);
            }
            assert(installed(d2, n, subs2, q, 0));
        }
    }
    assert forall|q: int| 0 <= q < d2.states.len() implies (#[trigger] d2.states[q]).targets.len()
        == 256 && ascending(d2.states[q].ends) && d2.states[q].ends.to_set() == n.ends_of(
        subs2[q],
    ) by {
        if q < fresh {
            assert(d2.states[q] == d.states[q]);
            assert(subs2[q] == subs[q]);
        }
    }
    assert forall|q: int| 0 <= q < subs2.len() implies n.inside(#[trigger] subs2[q]) by {
        if q < fresh {
            assert(subs2[q] == subs[q]);
        }
    }
}

/// One more transition for a state of the subset automaton.
pub proof fn lemma_building_edge(
    d: NfaModel,
    d2: NfaModel,
    n: NfaModel,
    subs: Seq<Set<usize>>,
    progress: Seq<int>,
    cur: int,
    q2: usize,
)
    requires
        n.shaped(),
        building(d, n, subs, progress),
        0 <= cur < d.states.len(),
        cur != STUCK,
        0 <= progress[cur] < n.alphabet.len(),
        stands_for(subs, q2, n.step(subs[cur], n.alphabet[progress[cur]])),
        d2.dict == d.dict,
        d2.alphabet == d.alphabet,
        d2.states.len() == d.states.len(),
        forall|q: int| 0 <= q < d.states.len() && q != cur ==> d2.states[q] == d.states[q],
        d2.states[cur].ends == d.states[cur].ends,
        d2.states[cur].targets == d.states[cur].targets.update(
            n.alphabet[progress[cur]] as int,
            d.states[cur].targets[n.alphabet[progress[cur]] as int].insert(q2),
        ),
    ensures
        building(d2, n, subs, progress.update(cur, progress[cur] + 1)),
{
    let a = progress[cur];
    let byte = n.alphabet[a];
    let progress2 = progress.update(cur, a + 1);
    assert(installed(d, n, subs, cur, a));
    assert(!n.alphabet.take(a).contains(byte)) by {
        if n.alphabet.take(a).contains(byte) {
            let i = choose|i: int| 0 <= i < n.alphabet.take(a).len() && n.alphabet.take(a)[i] == byte;
            assert(n.alphabet[i] < n.alphabet[a]);
        }
    }
    assert(d.targets(cur, byte) == Set::<usize>::empty());
    assert(d2.targets(cur, byte) =~= set![q2]);
    assert forall|q: int| 0 <= q < d2.states.len() implies 0 <= #[trigger] progress2[q]
        <= n.alphabet.len() && installed(d2, n, subs, q, progress2[q]) by {
        if q != cur {
            assert(d2.states[q] == d.states[q]);
            let p = progress[q];
            assert(progress2[q] == p);
            assert(0 <= p <= n.alphabet.len());
            assert(installed(d, n, subs, q, p));
            assert forall|i: int| 0 <= i < p implies has_lead(
                d2,
                n,
                subs,
                q,
                #[trigger] n.alphabet[i],
            ) by {
                assert(has_lead(d, n, subs, q, n.alphabet[i]));
                let t = choose|t: usize| leads(d, n, subs, q, n.alphabet[i], t);
                assert(d2.targets(q, n.alphabet[i]) == d.targets(q, n.alphabet[i]));
                assert(leads(d2, n, subs, q, n.alphabet[i], t));
            }
            assert forall|b: u8| !n.alphabet.take(p).contains(b) implies #[trigger] d2.targets(q, b)
                == Set::<usize>::empty() by {
                assert(d2.targets(q, b) == d.targets(q, b));
            }
            assert(installed(d2, n, subs, q, p));
        } else {
            assert(progress2[q] == a + 1);
            assert forall|i: int| 0 <= i < a + 1 implies has_lead(
                d2,
                n,
                subs,
                cur,
                #[trigger] n.alphabet[i],
            ) by {
                if i < a {
                    assert(has_lead(d, n, subs, cur, n.alphabet[i]));
                    let t = choose|t: usize| leads(d, n, subs, cur, n.alphabet[i], t);
                    assert(n.alphabet[i] < n.alphabet[a]);
                    assert(d2.targets(cur, n.alphabet[i]) == d.targets(cur, n.alphabet[i]));
                    assert(leads(d2, n, subs, cur, n.alphabet[i], t));
                } else {
                    assert(leads(d2, n, subs, cur, n.alphabet[i], q2));
                }
            }
            assert forall|b: u8| !n.alphabet.take(a + 1).contains(b) implies #[trigger] d2.targets(
                cur,
                b,
            ) == Set::<usize>::empty() by {
                assert(n.alphabet.take(a + 1)[a] == byte);
                assert(b != byte);
                if n.alphabet.take(a).contains(b) {
                    let i = choose|i: int| 0 <= i < n.alphabet.take(a).len() && n.alphabet.take(a)[i] == b;
                    assert(n.alphabet.take(a + 1)[i] == b);
                }
                assert(d2.targets(cur, b) == d.targets(cur, b));
            }
            assert(installed(d2, n, subs, cur, a + 1));
        }
    }
    assert forall|q: int| 0 <= q < d2.states.len() implies (#[trigger] d2.states[q]).targets.len()
        == 256 && ascending(d2.states[q].ends) && d2.states[q].ends.to_set() == n.ends_of(
        subs[q],
    ) by {
        assert(d.states[q].targets.len() == 256);
        if q != cur {
            assert(d2.states[q] == d.states[q]);
        }
    }
}

/// The position of `key` among `keys`, if it is there.
fn lookup(keys: &Vec<Vec<usize>>, key: &Vec<usize>) -> (r: Option<usize>)
    ensures
        match r {
            Some(q) => q < keys.len() && keys[q as int]@ == key@,
            None => forall|q: int| 0 <= q < keys.len() ==> keys[q]@ != key@,
        },
{
    let mut q: usize = 0;
    while q < keys.len()
        invariant
            q <= keys.len(),
            forall|k: int| 0 <= k < q ==> keys[k]@ != key@,
        decreases keys.len() - q,
    {
        if ordset::same(&keys[q], key) {
            return Some(q);
        }
        q += 1;
    }
    None
}

/// A copy of a dictionary.
fn copy_dict(dict: &Vec<Vec<u8>>) -> (copy: Vec<Vec<u8>>)
    ensures
        texts(copy@) == texts(dict@),
{
    let mut copy: Vec<Vec<u8>> = Vec::new();
    let mut i: usize = 0;
    while i < dict.len()
        invariant
            i <= dict.len(),
            copy@.len() == i,
            forall|k: int| 0 <= k < i ==> copy@[k]@ == dict@[k]@,
        decreases dict.len() - i,
    {
        let pattern = dict[i].clone();
        copy.push(pattern);
        i += 1;
    }
    proof {
        assert(texts(copy@) =~= texts(dict@));
    }
    copy
}

impl NFA {
    /// The subset automaton: a deterministic automaton over the same
    /// alphabet and dictionary that reports for every text what this
    /// automaton reports.  Each of its states stands for a set of states of
    /// this automaton, the start state for the start state alone; the sink
    /// stands for the sink, and for no state at all.  Every other state
    /// stands for the states that are active after some text, and no two
    /// for the same.
    pub fn powerset_construction(&self) -> (dnfa: NFA)
        requires
            self.wf(),
        ensures
            dnfa.wf(),
            dnfa@.dict == self@.dict,
            dnfa@.alphabet == self@.alphabet,
            exists|subs: Seq<Set<usize>>|
                subset_automaton(dnfa@, self@, subs) && all_reached(self@, subs),
            deterministic(dnfa@),
            forall|text: Seq<u8>| #[trigger] dnfa@.apply(text) == self@.apply(text),
            dnfa.depth_layers() == Seq::<Seq<usize>>::empty(),
    {
        let ghost n = self@;
        let ghost dictv = texts(self.dict@);
        let ghost limit = subsets_below(n.states.len()).len();
        let size = self.states.len();
        proof {
            self.lemma_fields();
        }
        let mut states: Vec<NFAState> = Vec::new();
        states.push(NFAState::with_ends(self.states[START].pattern_ends.clone()));
        states.push(NFAState::new());
        let mut keys: Vec<Vec<usize>> = Vec::new();
        let mut first: Vec<usize> = Vec::new();
        first.push(START);
        keys.push(first);
        let mut second: Vec<usize> = Vec::new();
        second.push(STUCK);
        keys.push(second);
        let mut worklist: Vec<usize> = Vec::new();
        worklist.push(START);
        let ghost mut progress: Seq<int> = seq![0int, 0int];
        proof {
            lemma_single_to_set(START);
            lemma_single_to_set(STUCK);
            assert(keys@[0]@ =~= seq![START]);
            assert(keys@[1]@ =~= seq![STUCK]);
            let d = model_of(states@, self.alphabet@, dictv);
            assert(key_sets(keys@) =~= seq![set![START], set![STUCK]]);
            assert(d.states =~= seq![
                StateModel { targets: blank_state().targets, ends: n.states[START as int].ends },
                blank_state(),
            ]);
            lemma_building_init(d, n);
            assert(worklist@[0] == START);
            assert(n.active_after(Seq::<u8>::empty()) == set![START]);
            assert(is_reached(n, set![START]));
            lemma_building_count(d, n, key_sets(keys@), progress);
        }
        while worklist.len() > 0
            invariant
                self.wf(),
                n == self@,
                dictv == texts(self.dict@),
                limit == subsets_below(n.states.len()).len(),
                size == self.states.len(),
                states.len() == keys.len(),
                states.len() <= limit,
                forall|q: int| 0 <= q < states.len() ==> (#[trigger] states[q]).repr_ok(),
                forall|q: int| 0 <= q < keys.len() ==> self.holds((#[trigger] keys[q])@),
                building(
                    model_of(states@, self.alphabet@, dictv),
                    n,
                    key_sets(keys@),
                    progress,
                ),
                all_reached(n, key_sets(keys@)),
                forall|k: int|
                    0 <= k < worklist.len() ==> (#[trigger] worklist[k]) < states.len()
                        && worklist[k] != STUCK && progress[worklist[k] as int] == 0,
                forall|i: int, j: int|
                    0 <= i < j < worklist.len() ==> worklist[i] != worklist[j],
                forall|q: int|
                    0 <= q < states.len() && q != STUCK && #[trigger] progress[q]
                        != self.alphabet.len() ==> worklist@.contains(q as usize),
            decreases limit - states.len(), worklist.len(),
        {
            let ghost pending_before = worklist@;
            let ghost states_at_pop = states.len();
            let cur = worklist.pop().unwrap();
            let ghost pending = worklist@;
            proof {
                assert(pending =~= pending_before.drop_last());
                assert(cur == pending_before[pending_before.len() - 1]);
                assert forall|q: int|
                    0 <= q < states.len() && q != STUCK && q != cur && #[trigger] progress[q]
                        != self.alphabet.len() implies worklist@.contains(q as usize) by {
                    assert(pending_before.contains(q as usize));
                    let k = choose|k: int|
                        0 <= k < pending_before.len() && pending_before[k] == q as usize;
                    assert(pending[k] == q as usize);
                }
            }
            let mut a: usize = 0;
            while a < self.alphabet.len()
                invariant
                    self.wf(),
                    n == self@,
                    dictv == texts(self.dict@),
                    limit == subsets_below(n.states.len()).len(),
                    size == self.states.len(),
                    a <= self.alphabet.len(),
                    cur < states.len(),
                    cur != STUCK,
                    states.len() == keys.len(),
                    states.len() <= limit,
                    states_at_pop <= states.len(),
                    states.len() - states_at_pop == worklist.len() - pending.len(),
                    forall|q: int| 0 <= q < states.len() ==> (#[trigger] states[q]).repr_ok(),
                    forall|q: int| 0 <= q < keys.len() ==> self.holds((#[trigger] keys[q])@),
                    building(
                        model_of(states@, self.alphabet@, dictv),
                        n,
                        key_sets(keys@),
                        progress,
                    ),
                    all_reached(n, key_sets(keys@)),
                    progress[cur as int] == a,
                    forall|k: int|
                        0 <= k < worklist.len() ==> (#[trigger] worklist[k]) < states.len()
                            && worklist[k] != STUCK && worklist[k] != cur
                            && progress[worklist[k] as int] == 0,
                    forall|i: int, j: int|
                        0 <= i < j < worklist.len() ==> worklist[i] != worklist[j],
                    forall|q: int|
                        0 <= q < states.len() && q != STUCK && q != cur && #[trigger] progress[q]
                            != self.alphabet.len() ==> worklist@.contains(q as usize),
                decreases self.alphabet.len() - a,
            {
                let b = self.alphabet[a];
                let ghost d = model_of(states@, self.alphabet@, dictv);
                let ghost subs = key_sets(keys@);
                let next = self.advance(&keys[cur], b);
                proof {
                    self.lemma_fields();
                    assert(n.alphabet[a as int] == b);
                    assert(subs[cur as int] == keys[cur as int]@.to_set());
                }
                let found: Option<usize> = if next.len() == 0 {
                    proof {
                        assert(next@.to_set() =~= Set::<usize>::empty());
                        assert(dead(next@.to_set()));
                    }
                    Some(STUCK)
                } else {
                    lookup(&keys, &next)
                };
                let target: usize = match found {
                    Some(q) => {
                        proof {
                            if next@.len() > 0 {
                                assert(subs[q as int] == next@.to_set());
                            }
                            assert(stands_for(subs, q, n.step(subs[cur as int], b)));
                        }
                        q
                    },
                    None => {
                        let fresh = states.len();
                        let ends = self.collect_ends(&next);
                        proof {
                            n.lemma_reported(next@.to_set());
                            assert(ends@.to_set() =~= n.ends_of(next@.to_set()));
                            assert forall|q: int| 0 <= q < subs.len() implies subs[q]
                                != next@.to_set() by {
                                if subs[q] == next@.to_set() {
                                    lemma_ascending_unique(keys[q]@, next@);
                                }
                            }
                            assert(n.inside(next@.to_set()));
                        }
                        let ghost key = next@.to_set();
                        let ghost list_before = worklist@;
                        let ghost progress_before = progress;
                        states.push(NFAState::with_ends(ends));
                        keys.push(next);
                        worklist.push(fresh);
                        let grown = states.len();
                        proof {
                            let d2 = model_of(states@, self.alphabet@, dictv);
                            assert(key_sets(keys@) =~= subs.push(key));
                            lemma_building_push(d, d2, n, subs, progress, key);
                            assert(all_reached(n, key_sets(keys@))) by {
                                assert(is_reached(n, subs[cur as int]));
                                let text = choose|text: Seq<u8>| #[trigger]
                                    n.active_after(text) == subs[cur as int];
                                n.lemma_run_push(set![START], text, b);
                                assert(n.active_after(text.push(b)) == key);
                                assert(is_reached(n, key));
                                assert forall|q: int|
                                    0 <= q < key_sets(keys@).len() && q != STUCK implies is_reached(
                                    n,
                                    #[trigger] key_sets(keys@)[q],
                                ) by {
                                    if q < subs.len() {
                                        assert(key_sets(keys@)[q] == subs[q]);
                                        assert(is_reached(n, subs[q]));
                                    }
                                }
                            }
                            progress = progress.push(0);
                            lemma_building_count(d2, n, key_sets(keys@), progress);
                            assert(stands_for(key_sets(keys@), fresh, n.step(subs[cur as int], b)));
                            assert forall|q: int|
                                0 <= q < states.len() && q != STUCK && q != cur
                                    && #[trigger] progress[q] != self.alphabet.len()
                                    implies worklist@.contains(q as usize) by {
                                if q == fresh {
                                    assert(worklist@[worklist@.len() - 1] == fresh);
                                } else {
                                    assert(progress[q] == progress_before[q]);
                                    assert(list_before.contains(q as usize));
                                    let k = choose|k: int|
                                        0 <= k < list_before.len() && list_before[k] == q as usize;
                                    assert(worklist@[k] == q as usize);
                                }
                            }
                        }
                        fresh
                    },
                };
                let ghost d1 = model_of(states@, self.alphabet@, dictv);
                let ghost subs1 = key_sets(keys@);
                let ghost states_before = states@;
                states[cur].add_target(b, target);
                proof {
                    let d2 = model_of(states@, self.alphabet@, dictv);
                    assert(subs1[cur as int] == subs[cur as int]);
                    assert(forall|q: int|
                        0 <= q < states_before.len() && q != cur ==> states@[q]
                            == states_before[q]);
                    lemma_building_edge(d1, d2, n, subs1, progress, cur as int, target);
                    progress = progress.update(cur as int, a + 1);
                }
                a += 1;
            }
            proof {
                assert forall|q: int|
                    0 <= q < states.len() && q != STUCK && #[trigger] progress[q]
                        != self.alphabet.len() implies worklist@.contains(q as usize) by {}
                assert(pending.len() == pending_before.len() - 1);
            }
        }
        let dnfa = NFA {
            alphabet: self.alphabet.clone(),
            states,
            dict: copy_dict(&self.dict),
            depth_map: Vec::new(),
        };
        proof {
            let d = dnfa@;
            let subs = key_sets(keys@);
            dnfa.lemma_fields();
            dnfa.lemma_no_depth_map();
            self.lemma_fields();
            assert(d == model_of(dnfa.states@, self.alphabet@, dictv));
            assert(progress =~= finished(d)) by {
                assert forall|q: int| 0 <= q < progress.len() implies progress[q] == finished(
                    d,
                )[q] by {
                    if q != STUCK && progress[q] != self.alphabet.len() {
                        assert(worklist@.contains(q as usize));
                    }
                }
            }
            assert(subset_automaton(d, n, subs) && all_reached(n, subs));
            lemma_building_wf(d, n, subs, progress);
            assert forall|text: Seq<u8>| #[trigger] d.apply(text) == n.apply(text) by {
                lemma_subset_apply(d, n, subs, text);
            }
        }
        dnfa
    }
}

} // verus!
