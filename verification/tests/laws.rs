use dnfa::automaton::{Automaton, Match};
use dnfa::nfa::NFA;

fn words(list: &[&str]) -> Vec<Vec<u8>> {
    list.iter().map(|w| w.as_bytes().to_vec()).collect()
}

fn basic_list() -> Vec<&'static str> {
    vec!["a", "ab", "bab", "bc", "bca", "c", "caa"]
}

fn texts() -> Vec<&'static str> {
    vec!["", "a", "b", "ab", "ba", "bab", "abab", "bbc", "abb", "bca", "caa", "xcaax", "cabcab", "zzz"]
}

fn all_matches<A: Automaton>(aut: &A, text: &[u8]) -> Vec<Match> {
    let mut found = Vec::new();
    let mut matches = aut.find(text);
    while let Some(m) = matches.next() {
        found.push(m);
    }
    found
}

fn variant(prefixes: bool, postfixes: bool) -> NFA {
    let mut nfa = NFA::from_dictionary(words(&basic_list()));
    if prefixes {
        nfa.ignore_prefixes();
    }
    if postfixes {
        nfa.ignore_postfixes();
    }
    nfa
}

#[test]
fn every_pattern_is_reported_for_itself_in_every_form() {
    for &(prefixes, postfixes) in &[(false, false), (true, false), (false, true), (true, true)] {
        let nfa = variant(prefixes, postfixes);
        let dnfa = nfa.powerset_construction();
        let dfa = nfa.powerset_construction().into_dfa().unwrap();
        let ddfa = nfa.powerset_construction().into_dfa().unwrap().into_ddfa().unwrap();
        for (i, word) in basic_list().iter().enumerate() {
            assert!(nfa.apply(word.as_bytes()).contains(&i));
            assert!(dnfa.apply(word.as_bytes()).contains(&i));
            assert!(dfa.apply(word.as_bytes()).contains(&i));
            assert!(ddfa.apply(word.as_bytes()).contains(&i));
        }
    }
}

#[test]
fn the_trie_reports_exactly_the_patterns_that_equal_the_text() {
    let nfa = variant(false, false);
    assert_eq!(nfa.apply(b"b"), Vec::<usize>::new());
    assert_eq!(nfa.apply(b"ba"), Vec::<usize>::new());
    assert_eq!(nfa.apply(b"ca"), Vec::<usize>::new());
    assert_eq!(nfa.apply(b"bab"), vec![2]);
    assert_eq!(nfa.apply(b"babx"), Vec::<usize>::new());
    let twice = NFA::from_dictionary(words(&["ab", "c", "ab"]));
    assert_eq!(twice.apply(b"ab"), vec![0, 2]);
}

#[test]
fn with_both_loops_a_pattern_is_reported_where_it_occurs() {
    let list = vec!["ab", "bc", "ca"];
    let mut nfa = NFA::from_dictionary(words(&list));
    nfa.ignore_prefixes();
    nfa.ignore_postfixes();
    for text in texts() {
        let reported = nfa.apply(text.as_bytes());
        for (i, word) in list.iter().enumerate() {
            assert_eq!(reported.contains(&i), text.contains(word));
        }
    }
}

#[test]
fn a_loop_inside_a_longer_pattern_lets_bytes_pass() {
    let mut nfa = NFA::from_dictionary(words(&["a", "ab"]));
    nfa.ignore_prefixes();
    nfa.ignore_postfixes();
    assert_eq!(nfa.apply(b"axb"), vec![0, 1]);
}

#[test]
fn the_loops_commute() {
    let mut first = NFA::from_dictionary(words(&basic_list()));
    first.ignore_prefixes();
    first.ignore_postfixes();
    let mut second = NFA::from_dictionary(words(&basic_list()));
    second.ignore_postfixes();
    second.ignore_prefixes();
    assert_eq!(first.state_count(), second.state_count());
    assert_eq!(first.alphabet(), second.alphabet());
    assert_eq!(first.alphabet().len(), 256);
    for state in 0..first.state_count() {
        assert_eq!(first.pattern_ends(state), second.pattern_ends(state));
        for byte in 0..=255u8 {
            assert_eq!(first.targets(state, byte), second.targets(state, byte));
        }
    }
    for text in texts() {
        assert_eq!(first.apply(text.as_bytes()), second.apply(text.as_bytes()));
    }
}

#[test]
fn lowering_keeps_what_is_reported_and_found() {
    for &(prefixes, postfixes) in &[(false, false), (true, false), (false, true), (true, true)] {
        let nfa = variant(prefixes, postfixes);
        let dnfa = nfa.powerset_construction();
        let dfa = nfa.powerset_construction().into_dfa().unwrap();
        let ddfa = nfa.powerset_construction().into_dfa().unwrap().into_ddfa().unwrap();
        for text in texts() {
            let expected = nfa.apply(text.as_bytes());
            assert_eq!(dnfa.apply(text.as_bytes()), expected);
            assert_eq!(dfa.apply(text.as_bytes()), expected);
            assert_eq!(ddfa.apply(text.as_bytes()), expected);
            let found = all_matches(&nfa, text.as_bytes());
            assert_eq!(all_matches(&dnfa, text.as_bytes()), found);
            assert_eq!(all_matches(&dfa, text.as_bytes()), found);
            assert_eq!(all_matches(&ddfa, text.as_bytes()), found);
        }
    }
}

#[test]
fn the_subset_automaton_of_a_subset_automaton_reports_the_same() {
    let mut nfa = NFA::from_dictionary(words(&basic_list()));
    nfa.ignore_prefixes();
    let mut dnfa = nfa.powerset_construction();
    dnfa.ignore_postfixes();
    let again = dnfa.powerset_construction();
    for text in texts() {
        assert_eq!(again.apply(text.as_bytes()), dnfa.apply(text.as_bytes()));
    }
    assert!(again.into_dfa().is_ok());
}

#[test]
fn the_trie_numbers_its_states_as_the_patterns_meet_them() {
    let nfa = NFA::from_dictionary(words(&["ab", "ac", "b"]));
    assert_eq!(nfa.state_count(), 6);
    assert_eq!(nfa.alphabet(), vec![b'a', b'b', b'c']);
    assert_eq!(nfa.targets(0, b'a'), vec![2]);
    assert_eq!(nfa.targets(2, b'b'), vec![3]);
    assert_eq!(nfa.targets(2, b'c'), vec![4]);
    assert_eq!(nfa.targets(0, b'b'), vec![5]);
    assert_eq!(nfa.targets(0, b'c'), Vec::<usize>::new());
    assert_eq!(nfa.targets(1, b'a'), Vec::<usize>::new());
    assert_eq!(nfa.pattern_ends(3), vec![0]);
    assert_eq!(nfa.pattern_ends(4), vec![1]);
    assert_eq!(nfa.pattern_ends(5), vec![2]);
    assert_eq!(nfa.pattern_ends(2), Vec::<usize>::new());
    assert_eq!(nfa.pattern_count(), 3);
    assert_eq!(nfa.pattern(1), b"ac".to_vec());
}

#[test]
fn the_automaton_of_no_pattern_reports_nothing() {
    let nfa = NFA::new();
    assert_eq!(nfa.state_count(), 2);
    assert!(nfa.alphabet().is_empty());
    assert!(nfa.apply(b"").is_empty());
    assert!(nfa.apply(b"abc").is_empty());
    assert!(nfa.find(b"abc").next().is_none());
}

#[test]
fn loops_are_added_where_they_belong() {
    let mut nfa = NFA::from_dictionary(words(&["a", "ab"]));
    nfa.ignore_prefixes();
    assert_eq!(nfa.targets(0, b'a'), vec![0, 2]);
    assert_eq!(nfa.targets(0, b'z'), vec![0]);
    assert_eq!(nfa.targets(2, b'z'), Vec::<usize>::new());
    nfa.ignore_postfixes();
    assert_eq!(nfa.targets(2, b'z'), vec![2]);
    assert_eq!(nfa.targets(2, b'b'), vec![2, 3]);
    assert_eq!(nfa.targets(3, b'b'), vec![3]);
    assert_eq!(nfa.targets(1, b'b'), Vec::<usize>::new());
}

#[test]
fn the_depth_map_holds_the_states_layer_by_layer() {
    let mut nfa = NFA::from_dictionary(words(&["ab", "ac", "b"]));
    assert_eq!(nfa.depth_map(), Vec::<Vec<usize>>::new());
    nfa.add_depth_map();
    assert_eq!(nfa.depth_map(), vec![vec![0], vec![2, 5], vec![3, 4]]);
    nfa.ignore_postfixes();
    nfa.add_depth_map();
    assert_eq!(nfa.depth_map(), vec![vec![0], vec![2, 5], vec![3, 4]]);
}

#[test]
fn the_depth_map_meets_a_state_when_its_turn_comes() {
    let mut nfa = NFA::from_dictionary(words(&["a", "b"]));
    nfa.ignore_prefixes();
    nfa.ignore_postfixes();
    nfa.add_depth_map();
    assert_eq!(nfa.depth_map(), vec![vec![0], vec![2, 3]]);
    let mut dnfa = nfa.powerset_construction();
    assert_eq!(dnfa.depth_map(), Vec::<Vec<usize>>::new());
    dnfa.add_depth_map();
    assert_eq!(dnfa.depth_map()[0], vec![0]);
    assert_eq!(dnfa.apply(b"xa"), vec![0]);
}

#[test]
fn the_default_automaton_is_that_of_no_pattern() {
    let nfa = NFA::default();
    assert_eq!(nfa.state_count(), 2);
    assert_eq!(nfa.pattern_count(), 0);
    assert!(nfa.apply(b"a").is_empty());
}

#[test]
fn with_a_prefix_loop_the_endings_are_reported() {
    let list = basic_list();
    let mut nfa = NFA::from_dictionary(words(&list));
    nfa.ignore_prefixes();
    for text in texts() {
        let reported = nfa.apply(text.as_bytes());
        for (i, word) in list.iter().enumerate() {
            assert_eq!(reported.contains(&i), text.ends_with(word));
        }
    }
}

#[test]
fn every_match_is_an_occurrence() {
    let list = basic_list();
    let mut nfa = NFA::from_dictionary(words(&list));
    nfa.ignore_prefixes();
    let dfa = nfa.powerset_construction().into_dfa().unwrap();
    for text in texts() {
        let mut last_end = 0;
        for found in all_matches(&dfa, text.as_bytes()) {
            assert!(last_end <= found.start);
            assert_eq!(&text[found.start..found.end], list[found.pattern_no]);
            last_end = found.end;
        }
    }
}
