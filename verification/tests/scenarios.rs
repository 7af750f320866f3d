use dnfa::automaton::{Automaton, Match};
use dnfa::dfa::{BuildError, DFAState, DFA};
use dnfa::nfa::NFA;

fn words(list: &[&str]) -> Vec<Vec<u8>> {
    list.iter().map(|w| w.as_bytes().to_vec()).collect()
}

fn basic_words() -> Vec<Vec<u8>> {
    words(&["a", "ab", "bab", "bc", "bca", "c", "caa"])
}

fn all_matches<A: Automaton>(aut: &A, text: &[u8]) -> Vec<Match> {
    let mut found = Vec::new();
    let mut matches = aut.find(text);
    while let Some(m) = matches.next() {
        found.push(m);
    }
    found
}

#[test]
fn apply_a_on_baseline() {
    let nfa = NFA::from_dictionary(basic_words());
    let reported = nfa.apply(b"a");
    assert!(reported.contains(&0));
    assert!(!reported.contains(&1));
    assert_eq!(reported, vec![0]);
}

#[test]
fn apply_ab_reports_the_pattern_that_ends_there() {
    let nfa = NFA::from_dictionary(basic_words());
    assert_eq!(nfa.apply(b"ab"), vec![1]);
    let mut looped = NFA::from_dictionary(basic_words());
    looped.ignore_postfixes();
    let reported = looped.apply(b"ab");
    assert!(reported.contains(&0));
    assert!(reported.contains(&1));
    assert_eq!(reported, vec![0, 1]);
}

#[test]
fn apply_bbc_needs_the_prefix_loop() {
    let mut nfa = NFA::from_dictionary(basic_words());
    assert!(nfa.apply(b"bbc").is_empty());
    nfa.ignore_prefixes();
    assert!(nfa.apply(b"bbc").contains(&3));
    assert_eq!(nfa.apply(b"bbc"), vec![3, 5]);
}

#[test]
fn apply_abb_needs_the_postfix_loops() {
    let mut nfa = NFA::from_dictionary(basic_words());
    assert!(nfa.apply(b"abb").is_empty());
    nfa.ignore_postfixes();
    assert!(!nfa.apply(b"abb").is_empty());
    assert_eq!(nfa.apply(b"abb"), vec![0, 1]);
}

#[test]
fn both_loops_report_for_bbc_and_abb() {
    let mut nfa = NFA::from_dictionary(basic_words());
    nfa.ignore_prefixes();
    nfa.ignore_postfixes();
    assert!(!nfa.apply(b"bbc").is_empty());
    assert!(!nfa.apply(b"abb").is_empty());
}

#[test]
fn find_in_empty_input_yields_nothing() {
    let mut nfa = NFA::from_dictionary(basic_words());
    nfa.ignore_prefixes();
    assert!(nfa.find(b"").next().is_none());
    let dnfa = nfa.powerset_construction();
    assert!(dnfa.find(b"").next().is_none());
    let dfa = dnfa.into_dfa().unwrap();
    assert!(dfa.find(b"").next().is_none());
    assert_eq!(dfa.find(b"").count(), 0);
    let ddfa = dfa.into_ddfa().unwrap();
    assert!(ddfa.find(b"").next().is_none());
}

#[test]
fn single_byte_pattern_at_position_zero() {
    let nfa = NFA::from_dictionary(words(&["x", "a"]));
    let first = nfa.find(b"a").next();
    assert_eq!(first, Some(Match { pattern_no: 1, start: 0, end: 1 }));
    let dfa = nfa.powerset_construction().into_dfa().unwrap();
    assert_eq!(dfa.find(b"a").next(), Some(Match { pattern_no: 1, start: 0, end: 1 }));
}

#[test]
fn a_pattern_and_its_extension_come_in_order_of_their_ends() {
    let nfa = NFA::from_dictionary(words(&["a", "ab"]));
    let dfa = nfa.powerset_construction().into_dfa().unwrap();
    let start = dfa.start_state();
    let after_a = dfa.next_state(&start, &b'a');
    assert!(dfa.has_match(&after_a, 0));
    assert!(!dfa.has_match(&after_a, 1));
    assert_eq!(dfa.get_match(&after_a, 0, 1), Match { pattern_no: 0, start: 0, end: 1 });
    let after_ab = dfa.next_state(&after_a, &b'b');
    assert!(dfa.has_match(&after_ab, 0));
    assert_eq!(dfa.get_match(&after_ab, 0, 2), Match { pattern_no: 1, start: 0, end: 2 });
    // the search itself starts afresh after the first match
    assert_eq!(all_matches(&dfa, b"ab"), vec![Match { pattern_no: 0, start: 0, end: 1 }]);
}

#[test]
fn an_empty_pattern_matches_after_every_byte() {
    let mut nfa = NFA::from_dictionary(words(&["", "b"]));
    assert_eq!(nfa.apply(b""), vec![0]);
    nfa.ignore_prefixes();
    assert_eq!(
        all_matches(&nfa, b"xbz"),
        vec![
            Match { pattern_no: 0, start: 1, end: 1 },
            Match { pattern_no: 0, start: 2, end: 2 },
            Match { pattern_no: 0, start: 3, end: 3 },
        ]
    );
    assert_eq!(nfa.apply(b"xb"), vec![0, 1]);
}

#[test]
fn matches_do_not_overlap_and_start_where_the_pattern_starts() {
    let mut nfa = NFA::from_dictionary(basic_words());
    nfa.ignore_prefixes();
    let expected = vec![
        Match { pattern_no: 3, start: 2, end: 4 },
        Match { pattern_no: 0, start: 4, end: 5 },
        Match { pattern_no: 5, start: 6, end: 7 },
    ];
    assert_eq!(all_matches(&nfa, b"xxbcaxc"), expected);
    let dnfa = nfa.powerset_construction();
    assert_eq!(all_matches(&dnfa, b"xxbcaxc"), expected);
    assert_eq!(dnfa.find(b"xxbcaxc").count(), 3);
    let dfa = dnfa.into_dfa().unwrap();
    assert_eq!(all_matches(&dfa, b"xxbcaxc"), expected);
    let ddfa = dfa.into_ddfa().unwrap();
    assert_eq!(all_matches(&ddfa, b"xxbcaxc"), expected);
    assert_eq!(ddfa.find(b"xxbcaxc").count(), 3);
}

#[test]
fn the_least_pattern_number_wins_at_one_offset() {
    let mut nfa = NFA::from_dictionary(words(&["bc", "ab", "b"]));
    nfa.ignore_prefixes();
    assert_eq!(nfa.apply(b"ab"), vec![1, 2]);
    let start = nfa.start_state();
    let after_a = nfa.next_state(&start, &b'a');
    let after_ab = nfa.next_state(&after_a, &b'b');
    assert!(nfa.has_match(&after_ab, 1));
    assert!(!nfa.has_match(&after_ab, 2));
    assert_eq!(nfa.get_match(&after_ab, 0, 2), Match { pattern_no: 1, start: 0, end: 2 });
    assert_eq!(nfa.get_match(&after_ab, 1, 2), Match { pattern_no: 2, start: 1, end: 2 });
    let dfa = nfa.powerset_construction().into_dfa().unwrap();
    assert_eq!(dfa.apply(b"ab"), vec![1, 2]);
}

#[test]
fn the_sink_is_left_by_no_byte() {
    let nfa = NFA::from_dictionary(basic_words());
    let stuck = nfa.stuck_state();
    assert_eq!(stuck, vec![1]);
    assert!(nfa.next_state(&stuck, &b'a').is_empty());
    assert!(!nfa.has_match(&stuck, 0));
    let dfa = nfa.powerset_construction().into_dfa().unwrap();
    let sink = dfa.stuck_state();
    assert_eq!(sink, 1);
    assert_eq!(dfa.next_state(&sink, &b'a'), 1);
    assert_eq!(dfa.next_state(&dfa.start_state(), &b'z'), 1);
    assert!(!dfa.has_match(&sink, 0));
}

#[test]
fn lowering_fails_on_two_targets() {
    let mut nfa = NFA::from_dictionary(basic_words());
    nfa.ignore_prefixes();
    assert_eq!(nfa.into_dfa().err(), Some(BuildError::NonDeterministic));
}

#[test]
fn lowering_fails_on_an_entry_out_of_range() {
    let dfa = NFA::from_dictionary(words(&["a"])).powerset_construction().into_dfa().unwrap();
    let mut states = Vec::new();
    for state in 0..dfa.state_count() {
        let mut table = dfa.transitions(state);
        if state == 0 {
            table[b'q' as usize] = dfa.state_count();
        }
        states.push(DFAState::new(table, dfa.pattern_ends(state)));
    }
    let finals = bit_vec::BitVec::from_elem(states.len(), false);
    let broken = DFA::new(states, finals, words(&["a"]));
    assert_eq!(broken.into_ddfa().err(), Some(BuildError::OffsetOutOfRange));
}

#[test]
fn accepting_states_are_marked() {
    let nfa = NFA::from_dictionary(words(&["a", "ab"]));
    let dfa = nfa.powerset_construction().into_dfa().unwrap();
    assert_eq!(dfa.state_count(), 4);
    assert!(!dfa.is_final(0));
    assert!(!dfa.is_final(1));
    assert!(dfa.is_final(2));
    assert!(dfa.is_final(3));
    assert_eq!(dfa.pattern_ends(2), vec![0]);
    assert_eq!(dfa.pattern_ends(3), vec![1]);
    let ddfa = dfa.into_ddfa().unwrap();
    assert!(!ddfa.is_final(0));
    assert!(!ddfa.is_final(1));
    assert!(ddfa.is_final(2));
    assert!(ddfa.is_final(3));
    assert_eq!(ddfa.transitions(0)[b'a' as usize], 2);
    assert_eq!(ddfa.transitions(0)[b'b' as usize], 1);
    assert_eq!(ddfa.transitions(2)[b'b' as usize], 3);
}
