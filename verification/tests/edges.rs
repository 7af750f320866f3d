use dnfa::edges::runs;
use dnfa::nfa::NFA;

fn words(list: &[&str]) -> Vec<Vec<u8>> {
    list.iter().map(|w| w.as_bytes().to_vec()).collect()
}

#[test]
fn runs_lists_each_run_that_a_gap_follows() {
    assert_eq!(runs(&vec![1, 2, 3, 7, 8, 10, 20, 21]), vec![(1, 3), (7, 8), (10, 10)]);
    assert_eq!(runs(&vec![5]), Vec::<(u8, u8)>::new());
    assert_eq!(runs(&vec![0, 1, 2]), Vec::<(u8, u8)>::new());
    assert_eq!(runs(&vec![0, 255]), vec![(0, 0)]);
}

#[test]
fn bytes_between_two_states_are_those_that_lead_there() {
    let mut nfa = NFA::from_dictionary(words(&["ab", "cb"]));
    assert_eq!(nfa.bytes_between(0, 2), vec![b'a']);
    assert_eq!(nfa.bytes_between(0, 4), vec![b'c']);
    assert_eq!(nfa.bytes_between(2, 3), vec![b'b']);
    assert_eq!(nfa.bytes_between(0, 3), Vec::<u8>::new());
    nfa.ignore_prefixes();
    assert_eq!(nfa.bytes_between(0, 0).len(), 256);
    let dnfa = nfa.powerset_construction();
    let sink = dnfa.bytes_between(2, 1);
    assert!(sink.is_empty());
}

#[test]
fn dict_edges_spell_the_patterns() {
    let nfa = NFA::from_dictionary(words(&["ab", "ac", "b"]));
    assert_eq!(nfa.dict_edges(), vec![(0, 2), (2, 3), (0, 2), (2, 4), (0, 5)]);
    assert_eq!(nfa.first_target(0, b'a'), Some(2));
    assert_eq!(nfa.first_target(0, b'z'), None);
    let mut looped = NFA::from_dictionary(words(&["ab"]));
    looped.ignore_prefixes();
    assert_eq!(looped.first_target(0, b'a'), Some(0));
    assert_eq!(looped.dict_edges(), vec![(0, 0), (0, 0)]);
}
