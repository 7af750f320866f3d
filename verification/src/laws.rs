//! What holds of the automata of this library however they are used.

use vstd::prelude::*;
use crate::automaton::{first_end, lemma_first_end, match_at, matches_from, Match};
use crate::loops::{
    clean, ends_with, extends, lemma_ends_mono, lemma_extends_trans, lemma_loop_stays,
    lemma_looped_active, lemma_postfix_extends, lemma_postfix_targets, lemma_prefix_active,
    lemma_prefix_extends, lemma_prefix_targets, lemma_run_mono, occurs_in,
};
use crate::model::NfaModel;
use crate::subsets::{lemma_building_wf, lemma_subset_apply, finished, subset_automaton};
use crate::table::{lemma_lowered_apply, lemma_lowered_wf, lowered};
use crate::trie::{is_trie, lemma_trie_accepted, trie_upto};
use crate::START;

verus! {

/// The automaton `m` after `ignore_prefixes`, if `prefixes`, and then
/// `ignore_postfixes`, if `postfixes`.
pub open spec fn with_loops(m: NfaModel, prefixes: bool, postfixes: bool) -> NfaModel {
    let first = if prefixes {
        m.with_prefix_loop()
    } else {
        m
    };
    if postfixes {
        first.with_postfix_loops()
    } else {
        first
    }
}

/// Loops keep an automaton well-formed and take no transition away.
pub proof fn lemma_with_loops(m: NfaModel, prefixes: bool, postfixes: bool)
    requires
        m.wf(),
    ensures
        with_loops(m, prefixes, postfixes).wf(),
        extends(m, with_loops(m, prefixes, postfixes)),
{
    let first = if prefixes {
        m.with_prefix_loop()
    } else {
        m
    };
    if prefixes {
        m.lemma_prefix_loop_wf();
        lemma_prefix_extends(m);
    }
    assert(extends(m, first));
    if postfixes {
        first.lemma_postfix_loops_wf();
        lemma_postfix_extends(first);
        lemma_extends_trans(m, first, first.with_postfix_loops());
    }
}

/// Every pattern is reported for itself: by the trie of the dictionary,
/// with or without loops before and after a pattern, by the subset
/// automaton of any of these, and by its table-driven form, which the two
/// table-driven automata share.
pub proof fn law_pattern_reported(
    m: NfaModel,
    prefixes: bool,
    postfixes: bool,
    d: NfaModel,
    subs: Seq<Set<usize>>,
    i: int,
)
    requires
        m.wf(),
        is_trie(m),
        0 <= i < m.dict.len(),
        subset_automaton(d, with_loops(m, prefixes, postfixes), subs),
    ensures
        with_loops(m, prefixes, postfixes).apply(m.dict[i]).contains(i as usize),
        d.apply(m.dict[i]).contains(i as usize),
        lowered(d).apply(m.dict[i]).contains(i as usize),
{
    let n = with_loops(m, prefixes, postfixes);
    let text = m.dict[i];
    lemma_with_loops(m, prefixes, postfixes);
    lemma_trie_accepted(m, text, i as usize);
    lemma_run_mono(m, n, set![START], set![START], text);
    lemma_ends_mono(m, n, m.active_after(text), n.active_after(text));
    assert(n.accepted(text).contains(i as usize));
    n.lemma_reported(n.active_after(text));
    law_lowering_equivalence(n, d, subs, text);
}

/// The trie of a dictionary reports nothing for a text that is no pattern,
/// be it the beginning of a pattern or not.
pub proof fn law_other_text_silent(m: NfaModel, text: Seq<u8>)
    requires
        m.wf(),
        is_trie(m),
        forall|i: int| 0 <= i < m.dict.len() ==> m.dict[i] != text,
    ensures
        m.apply(text) == Seq::<usize>::empty(),
{
    assert forall|p: usize| !m.accepted(text).contains(p) by {
        lemma_trie_accepted(m, text, p);
    }
    crate::ordset::lemma_empty_to_set();
    assert(m.accepted(text) =~= Seq::<usize>::empty().to_set());
    m.lemma_reported_is(m.active_after(text), Seq::<usize>::empty());
}

/// The trie of a dictionary reports for a text the patterns that equal it,
/// in ascending order.
pub proof fn law_trie_reports_equal_patterns(m: NfaModel, text: Seq<u8>, i: usize)
    requires
        m.wf(),
        is_trie(m),
    ensures
        m.apply(text).contains(i) <==> i < m.dict.len() && m.dict[i as int] == text,
{
    lemma_trie_accepted(m, text, i);
    m.lemma_reported(m.active_after(text));
}

/// With loops before and after a pattern, a pattern is reported for every
/// text in which it occurs.
pub proof fn law_substring_reported(m: NfaModel, i: int, text: Seq<u8>)
    requires
        m.wf(),
        is_trie(m),
        0 <= i < m.dict.len(),
        occurs_in(m.dict[i], text),
    ensures
        with_loops(m, true, true).apply(text).contains(i as usize),
{
    let both = with_loops(m, true, true);
    let first = m.with_prefix_loop();
    let p = m.dict[i];
    lemma_with_loops(m, true, true);
    m.lemma_prefix_loop_wf();
    let k = choose|k: int|
        0 <= k && k + p.len() <= text.len() && #[trigger] text.subrange(k, k + p.len()) == p;
    let x = text.take(k);
    let y = text.skip(k + p.len());
    assert((x + p) + y =~= text);
    // the state that ends the pattern in the trie
    lemma_trie_accepted(m, p, i as usize);
    let s = choose|s: usize|
        m.active_after(p).contains(s) && s < m.states.len() && #[trigger] m.states[s as int].ends.contains(
            i as usize,
        );
    // the start state stays active while `x` is read
    assert forall|b: u8| #[trigger] both.targets(START as int, b).contains(START) by {
        lemma_prefix_targets(m, START as int, b, START);
        lemma_postfix_targets(first, START as int, b, START);
    }
    lemma_loop_stays(both, set![START], START, x);
    // from there the pattern leads to its state
    lemma_run_mono(m, both, set![START], both.active_after(x), p);
    both.lemma_run_concat(set![START], x, p);
    assert(both.active_after(x + p).contains(s));
    // which stays active while `y` is read
    assert(both.states[s as int].ends == m.states[s as int].ends);
    assert(m.states[s as int].ends.len() > 0);
    assert forall|b: u8| #[trigger] both.targets(s as int, b).contains(s) by {
        lemma_postfix_targets(first, s as int, b, s);
    }
    lemma_loop_stays(both, both.active_after(x + p), s, y);
    both.lemma_run_concat(set![START], x + p, y);
    assert(both.active_after(text).contains(s) && both.states[s as int].ends.contains(i as usize));
    assert(both.accepted(text).contains(i as usize));
    both.lemma_reported(both.active_after(text));
}

/// With loops before and after a pattern, a pattern that is reported for a
/// text occurs in it, provided that no other pattern than the empty one is
/// a proper beginning of it.  (Where one is, the loop on its state lets
/// bytes in between pass: of "a" and "ab" the second is reported for
/// "axb".)
pub proof fn law_reported_substring(m: NfaModel, i: int, text: Seq<u8>)
    requires
        m.wf(),
        is_trie(m),
        0 <= i < m.dict.len(),
        clean(m.dict, m.dict[i]),
        with_loops(m, true, true).apply(text).contains(i as usize),
    ensures
        occurs_in(m.dict[i], text),
{
    let both = with_loops(m, true, true);
    let first = m.with_prefix_loop();
    let p = m.dict[i];
    lemma_with_loops(m, true, true);
    m.lemma_prefix_loop_wf();
    both.lemma_reported(both.active_after(text));
    assert(both.accepted(text).contains(i as usize));
    let s = choose|s: usize|
        both.active_after(text).contains(s) && s < both.states.len()
            && #[trigger] both.states[s as int].ends.contains(i as usize);
    let (paths, owners) = choose|paths: Seq<Seq<u8>>, owners: Seq<int>|
        trie_upto(m, paths, owners, m.dict.len() as int, 0);
    lemma_looped_active(m, paths, owners, text, s);
    lemma_postfix_targets(first, s as int, 0, 0);
    lemma_prefix_targets(m, s as int, 0, 0);
    assert(m.states[s as int].ends.contains(i as usize));
    assert(paths[s as int] == p);
    if s == START {
        assert(text.subrange(0int, 0int + p.len()) =~= p);
    } else if ends_with(text, p) {
        assert(text.subrange(text.len() - p.len(), text.len() - p.len() + p.len()) =~= text.skip(
            text.len() - p.len(),
        ));
    }
}

/// `ignore_prefixes` and `ignore_postfixes` give the same automaton in
/// either order, which therefore reports the same patterns for every text.
pub proof fn law_loops_commute(m: NfaModel, text: Seq<u8>)
    requires
        m.wf(),
    ensures
        m.with_prefix_loop().with_postfix_loops() == m.with_postfix_loops().with_prefix_loop(),
        m.with_prefix_loop().with_postfix_loops().apply(text)
            == m.with_postfix_loops().with_prefix_loop().apply(text),
{
    let a = m.with_prefix_loop().with_postfix_loops();
    let b = m.with_postfix_loops().with_prefix_loop();
    assert(a.states.len() == b.states.len());
    assert forall|s: int| 0 <= s < a.states.len() implies a.states[s] == b.states[s] by {
        assert(a.states[s].ends == b.states[s].ends);
        assert(m.states[s].targets.len() == 256);
        assert(a.states[s].targets =~= b.states[s].targets) by {
            assert forall|c: int| 0 <= c < 256 implies a.states[s].targets[c]
                =~= b.states[s].targets[c] by {}
        }
    }
    assert(a.states =~= b.states);
}

/// Lowering keeps what is reported: the subset automaton of an automaton,
/// and its table-driven form, which the two table-driven automata share,
/// report for every text what the automaton reports.
pub proof fn law_lowering_equivalence(
    n: NfaModel,
    d: NfaModel,
    subs: Seq<Set<usize>>,
    text: Seq<u8>,
)
    requires
        n.wf(),
        subset_automaton(d, n, subs),
    ensures
        d.apply(text) == n.apply(text),
        lowered(d).apply(text) == n.apply(text),
        lowered(d).as_nfa().apply(text) == n.apply(text),
{
    lemma_subset_apply(d, n, subs, text);
    lemma_building_wf(d, n, subs, finished(d));
    lemma_lowered_apply(d, text);
    lemma_lowered_wf(d);
    lowered(d).lemma_run(text);
}

/// Two automata with one dictionary that report the same for every text
/// find the same first match.
pub proof fn lemma_same_first_end(a: NfaModel, b: NfaModel, input: Seq<u8>, anchor: int, e: int)
    requires
        forall|text: Seq<u8>| #[trigger] a.apply(text) == b.apply(text),
    ensures
        first_end(a, input, anchor, e) == first_end(b, input, anchor, e),
    decreases input.len() - e,
{
    if anchor < 0 || e < anchor || e >= input.len() {
    } else {
        assert(a.apply(input.subrange(anchor, e + 1)) == b.apply(input.subrange(anchor, e + 1)));
        lemma_same_first_end(a, b, input, anchor, e + 1);
    }
}

/// Two automata with one dictionary that report the same for every text
/// find the same matches.
pub proof fn lemma_same_matches(a: NfaModel, b: NfaModel, input: Seq<u8>, anchor: int)
    requires
        a.dict == b.dict,
        forall|text: Seq<u8>| #[trigger] a.apply(text) == b.apply(text),
    ensures
        matches_from(a, input, anchor) == matches_from(b, input, anchor),
    decreases input.len() - anchor,
{
    lemma_same_first_end(a, b, input, anchor, anchor);
    match first_end(a, input, anchor, anchor) {
        None => {},
        Some(end) => {
            if anchor < end <= input.len() {
                assert(a.apply(input.subrange(anchor, end)) == b.apply(
                    input.subrange(anchor, end),
                ));
                lemma_same_matches(a, b, input, end);
            }
        },
    }
}

/// Lowering keeps what is found: the search yields the same matches in the
/// same order with an automaton, with its subset automaton, and with the
/// table-driven forms of that.
pub proof fn law_lowering_keeps_matches(
    n: NfaModel,
    d: NfaModel,
    subs: Seq<Set<usize>>,
    input: Seq<u8>,
)
    requires
        n.wf(),
        subset_automaton(d, n, subs),
    ensures
        matches_from(d, input, 0) == matches_from(n, input, 0),
        matches_from(lowered(d).as_nfa(), input, 0) == matches_from(n, input, 0),
{
    assert forall|text: Seq<u8>| #[trigger] d.apply(text) == n.apply(text) by {
        law_lowering_equivalence(n, d, subs, text);
    }
    assert forall|text: Seq<u8>| #[trigger] lowered(d).as_nfa().apply(text) == n.apply(text) by {
        law_lowering_equivalence(n, d, subs, text);
    }
    lemma_same_matches(d, n, input, 0);
    lemma_same_matches(lowered(d).as_nfa(), n, input, 0);
}

/// With a loop before a pattern, and none after it, the patterns that are
/// reported for a text are those that end it.
pub proof fn law_prefix_loop_reports_endings(m: NfaModel, text: Seq<u8>, i: usize)
    requires
        m.wf(),
        is_trie(m),
    ensures
        with_loops(m, true, false).apply(text).contains(i) <==> i < m.dict.len() && ends_with(
            text,
            m.dict[i as int],
        ),
{
    let looped = m.with_prefix_loop();
    m.lemma_prefix_loop_wf();
    looped.lemma_reported(looped.active_after(text));
    let (paths, owners) = choose|paths: Seq<Seq<u8>>, owners: Seq<int>|
        trie_upto(m, paths, owners, m.dict.len() as int, 0);
    if looped.apply(text).contains(i) {
        let s = choose|s: usize|
            looped.active_after(text).contains(s) && s < looped.states.len()
                && #[trigger] looped.states[s as int].ends.contains(i);
        lemma_prefix_active(m, paths, owners, text, s);
        lemma_prefix_targets(m, s as int, 0, 0);
        assert(m.states[s as int].ends.contains(i));
    }
    if i < m.dict.len() && ends_with(text, m.dict[i as int]) {
        let p = m.dict[i as int];
        lemma_trie_accepted(m, p, i);
        let s = choose|s: usize|
            m.active_after(p).contains(s) && s < m.states.len() && #[trigger] m.states[s as int].ends.contains(
                i,
            );
        crate::trie::lemma_trie_active(m, paths, owners, p, s);
        lemma_prefix_active(m, paths, owners, text, s);
        lemma_prefix_targets(m, s as int, 0, 0);
        assert(looped.active_after(text).contains(s) && looped.states[s as int].ends.contains(i));
    }
}

/// Whether `found` is an occurrence of its pattern in `input` that begins
/// at or after `anchor`.
pub open spec fn is_occurrence(dict: Seq<Seq<u8>>, input: Seq<u8>, anchor: int, found: Match) -> bool {
    &&& found.pattern_no < dict.len()
    &&& anchor <= found.start <= found.end <= input.len()
    &&& input.subrange(found.start as int, found.end as int) == dict[found.pattern_no as int]
}

/// With a loop before a pattern, and none after it, every match that the
/// search yields is an occurrence of its pattern in the text, no match
/// begins before the one before it has ended, and where several patterns
/// end at one offset the match is for the one with the least number.  The
/// same holds of any automaton that reports what this one reports, such as
/// its subset automaton and the table-driven forms of that.
pub proof fn law_matches_are_occurrences(
    m: NfaModel,
    other: NfaModel,
    input: Seq<u8>,
    anchor: int,
    k: int,
)
    requires
        m.wf(),
        is_trie(m),
        other.dict == m.dict,
        forall|text: Seq<u8>| #[trigger] other.apply(text) == with_loops(m, true, false).apply(text),
        input.len() <= usize::MAX,
        0 <= anchor <= input.len(),
        0 <= k < matches_from(other, input, anchor).len(),
    ensures
        is_occurrence(m.dict, input, anchor, matches_from(other, input, anchor)[k]),
        k > 0 ==> matches_from(other, input, anchor)[k - 1].end <= matches_from(
            other,
            input,
            anchor,
        )[k].start,
        forall|i: usize|
            i < m.dict.len() && ends_with(
                input.subrange(anchor, matches_from(other, input, anchor)[0].end as int),
                #[trigger] m.dict[i as int],
            ) ==> matches_from(other, input, anchor)[0].pattern_no <= i,
    decreases input.len() - anchor,
{
    let looped = with_loops(m, true, false);
    m.lemma_prefix_loop_wf();
    lemma_first_end(other, input, anchor, anchor);
    let end = first_end(other, input, anchor, anchor).unwrap();
    let text = input.subrange(anchor, end);
    let first = match_at(other, input, anchor, end);
    let rest = matches_from(other, input, end);
    assert(matches_from(other, input, anchor) == seq![first] + rest);
    let reported = other.apply(text);
    assert(reported == looped.apply(text));
    let p = reported[0];
    looped.lemma_reported(looped.active_after(text));
    assert(reported.contains(p));
    law_prefix_loop_reports_endings(m, text, p);
    let pattern = m.dict[p as int];
    assert(input.subrange(end - pattern.len(), end) =~= text.skip(text.len() - pattern.len()));
    assert(is_occurrence(m.dict, input, anchor, first));
    assert forall|i: usize|
        i < m.dict.len() && ends_with(text, #[trigger] m.dict[i as int]) implies p <= i by {
        law_prefix_loop_reports_endings(m, text, i);
        let j = choose|j: int| 0 <= j < reported.len() && reported[j] == i;
        assert(crate::ordset::ascending(reported));
    }
    if k > 0 {
        law_matches_are_occurrences(m, other, input, end, k - 1);
        assert(matches_from(other, input, anchor)[k] == rest[k - 1]);
        if k > 1 {
            assert(matches_from(other, input, anchor)[k - 1] == rest[k - 2]);
        }
    }
}

} // verus!
