use dnfa::scc::SccMutState;

#[test]
fn a_new_search_has_met_no_state() {
    let state = SccMutState::new(3);
    assert!(!state.visited(0));
    assert!(!state.visited(2));
    assert!(state.scc_seed(1));
    assert_eq!(state.sccs_and_mapping(), (Vec::<Vec<usize>>::new(), vec![usize::MAX; 3]));
}

#[test]
fn meeting_a_state_numbers_it() {
    let mut state = SccMutState::new(3);
    state.init(2);
    state.init(0);
    assert!(state.visited(2));
    assert!(state.visited(0));
    assert!(!state.visited(1));
    assert!(state.scc_seed(0));
    assert_eq!(state.sccs_mapping(), vec![1, usize::MAX, 0]);
}

#[test]
fn update_takes_the_lower_link() {
    let mut state = SccMutState::new(3);
    state.init(2);
    state.init(0);
    state.update(0, 2);
    assert!(!state.scc_seed(0));
    state.update(2, 0);
    assert!(state.scc_seed(2));
    assert_eq!(state.sccs_mapping(), vec![0, usize::MAX, 0]);
}

#[test]
fn next_state_passes_over_the_states_that_were_met() {
    let mut state = SccMutState::new(4);
    state.init(3);
    state.init(1);
    let successors = vec![3, 1, 2, 0];
    let mut cursor = 0;
    assert_eq!(state.next_state(1, &successors, &mut cursor), Some(2));
    assert_eq!(cursor, 3);
    assert_eq!(state.next_state(1, &successors, &mut cursor), Some(0));
    assert_eq!(cursor, 4);
    assert_eq!(state.next_state(1, &successors, &mut cursor), None);
    assert_eq!(cursor, 4);
    assert_eq!(state.sccs_mapping(), vec![usize::MAX, 0, usize::MAX, 0]);
}

#[test]
fn next_state_ends_where_every_successor_was_met() {
    let mut state = SccMutState::new(2);
    state.init(0);
    state.init(1);
    let successors = vec![0, 1, 0];
    let mut cursor = 0;
    assert_eq!(state.next_state(1, &successors, &mut cursor), None);
    assert_eq!(cursor, 3);
    assert_eq!(state.sccs_mapping(), vec![0, 0]);
}

#[test]
fn construct_scc_takes_the_component_off_the_stack() {
    let mut state = SccMutState::new(2);
    state.init(1);
    state.init(0);
    state.construct_scc(0);
    assert_eq!(state.sccs(), vec![vec![0]]);
}

#[test]
fn construct_scc_leaves_a_state_alone_that_reaches_further_back() {
    let mut state = SccMutState::new(2);
    state.init(1);
    state.init(0);
    state.update(0, 1);
    state.construct_scc(0);
    assert_eq!(state.sccs(), Vec::<Vec<usize>>::new());
}
