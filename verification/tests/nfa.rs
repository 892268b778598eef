use luthor::dfa::InvariantError;
use luthor::nfa::{NfaStateRow, NFA};

fn row(accepting: bool, state_id: u32, transitions: Vec<Vec<u32>>) -> NfaStateRow {
    NfaStateRow {
        accepting,
        state_id,
        transitions,
    }
}

/// Over [a, b]: from 0, 'a' goes to {1, 2}; from 1, 'b' reaches the
/// accepting 3; 2 is a trap.
fn branching_nfa() -> NFA {
    let rows = vec![
        row(false, 0, vec![vec![2, 1], vec![]]),
        row(false, 1, vec![vec![], vec![3]]),
        row(false, 2, vec![vec![], vec![]]),
        row(true, 3, vec![vec![], vec![]]),
    ];
    NFA::new(rows, vec![b'a', b'b'], 0).unwrap()
}

#[test]
fn nfa_new_rejects_empty_table() {
    assert_eq!(
        NFA::new(Vec::new(), vec![b'a'], 0).err(),
        Some(InvariantError::EmptyStates)
    );
}

#[test]
fn nfa_getters_read_the_table() {
    let n = branching_nfa();
    assert_eq!(n.size(), 4);
    assert!(n.state_is_accepting(3));
    assert!(!n.state_is_accepting(0));
    assert!(!n.state_is_accepting(9));
    assert_eq!(n.get_state(1).unwrap().state_id, 1);
    assert!(n.get_state(4).is_none());
}

#[test]
fn nfa_current_states_are_replaceable() {
    let mut n = branching_nfa();
    assert!(!n.is_accepting());
    n.set_current_states(vec![1, 3]);
    assert!(n.is_accepting());
    assert_eq!(n.get_current_states_id(), vec![1, 3]);
}

#[test]
fn nfa_simulate_follows_all_branches() {
    let mut n = branching_nfa();
    assert!(n.simulate(b"ab"));
    assert_eq!(n.get_longest_accepting_match(), b"ab".to_vec());

    assert!(!n.simulate(b"a"));
    assert_eq!(n.get_longest_accepting_match(), Vec::<u8>::new());

    // after "ab", the set {3} has no move on 'a'; the match stays "ab",
    // and the run reports the accepting set it was left standing in
    assert!(n.simulate(b"aba"));
    assert_eq!(n.get_longest_accepting_match(), b"ab".to_vec());
    assert!(n.will_not_match);
}

#[test]
fn nfa_simulate_goes_dead_without_transition() {
    let mut n = branching_nfa();
    assert!(!n.simulate(b"b"));
    assert!(n.will_not_match);
    assert_eq!(n.get_current_states_id(), vec![0]);
}

#[test]
fn nfa_simulate_goes_dead_on_unknown_symbol() {
    let mut n = branching_nfa();
    assert!(!n.simulate(b"z"));
    assert!(n.will_not_match);
}

#[test]
fn nfa_print_sorts_target_sets() {
    let n = branching_nfa();
    let text = n.print();
    let expected = b"- 0 1,2 E \n- 1 E 3 \n- 2 E E \n+ 3 E E \n".to_vec();
    assert_eq!(text, expected);
}

#[test]
fn nfa_simulate_one_step_builds_the_set() {
    let mut n = branching_nfa();
    n.set_current_states(vec![0]);
    n.simulate_one_step(b'a');
    let mut ids = n.get_current_states_id();
    ids.sort();
    assert_eq!(ids, vec![1, 2]);
    assert!(!n.will_not_match);
    n.simulate_one_step(b'b');
    assert_eq!(n.get_current_states_id(), vec![3]);
    assert!(n.is_accepting());
}
