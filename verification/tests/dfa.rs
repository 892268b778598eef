use luthor::dfa::{StateRow, DFA, InvariantError};
use luthor::table::{dfa_from_table, parse_transition_table, ConfigError};

fn row(accepting: bool, state_id: u32, transitions: Vec<Option<u32>>) -> StateRow {
    StateRow {
        accepting,
        state_id,
        transitions,
    }
}

/// The automaton of the minimization scenario: over [a, b] it accepts
/// exactly "aa" and "ba", through two equivalent middle states.
fn scenario_dfa() -> DFA {
    let rows = vec![
        row(false, 0, vec![Some(1), Some(2)]),
        row(false, 1, vec![Some(3), None]),
        row(false, 2, vec![Some(3), None]),
        row(true, 3, vec![None, None]),
    ];
    DFA::new(rows, vec![b'a', b'b']).unwrap()
}

#[test]
fn new_rejects_empty_table() {
    assert_eq!(
        DFA::new(Vec::new(), vec![b'a']).err(),
        Some(InvariantError::EmptyStates)
    );
}

#[test]
fn getters_read_the_table() {
    let d = scenario_dfa();
    assert_eq!(d.size(), 4);
    assert_eq!(d.num_states(), 4);
    assert!(d.state_is_accepting(3));
    assert!(!d.state_is_accepting(0));
    assert!(!d.state_is_accepting(9));
    assert!(d.is_accepting(3));
    assert_eq!(d.get_state(1).unwrap().state_id, 1);
    assert!(d.get_state(4).is_none());
    assert_eq!(d.get_current_state_id(), 0);
}

#[test]
fn set_current_state_moves() {
    let mut d = scenario_dfa();
    d.set_current_state(2);
    assert_eq!(d.get_current_state_id(), 2);
}

#[test]
fn simulate_records_longest_accepted_prefix() {
    let mut d = scenario_dfa();
    assert!(d.simulate(b"aa"));
    assert!(d.self_is_accepting());
    assert_eq!(d.get_longest_accepting_match(), b"aa".to_vec());

    assert!(d.simulate(b"ba"));
    assert_eq!(d.get_longest_accepting_match(), b"ba".to_vec());

    // the accepted prefix of a longer input is still "aa"
    assert!(d.simulate(b"aab"));
    assert_eq!(d.get_longest_accepting_match(), b"aa".to_vec());

    assert!(!d.simulate(b"ab"));
    assert_eq!(d.get_longest_accepting_match(), Vec::<u8>::new());

    assert!(!d.simulate(b""));
}

#[test]
fn simulate_goes_dead_on_unknown_symbol() {
    let mut d = scenario_dfa();
    assert!(!d.simulate(b"z"));
    assert!(d.will_not_match);
    assert_eq!(d.get_longest_accepting_match(), Vec::<u8>::new());
}

#[test]
fn remove_state_renumbers_and_redirects() {
    let mut d = scenario_dfa();
    d.remove_state(2, Some(1));
    assert_eq!(d.size(), 3);
    // row 0: the reference to 2 moved to 1, the one to 1 stayed
    assert_eq!(d.states[0].transitions, vec![Some(1), Some(1)]);
    assert_eq!(d.states[0].state_id, 0);
    // old row 3 is now row 2, and references to it dropped from 3 to 2
    assert_eq!(d.states[1].transitions, vec![Some(2), None]);
    assert!(d.states[2].accepting);
    assert_eq!(d.states[2].state_id, 2);
}

#[test]
fn minimize_merges_equivalent_states() {
    // the scenario: q1 and q2 are equivalent, so 4 states become 3
    let mut d = scenario_dfa();
    d.minimize();
    assert_eq!(d.size(), 3);
    for (i, s) in d.states.iter().enumerate() {
        assert_eq!(s.state_id as usize, i);
    }
}

#[test]
fn minimize_preserves_the_language() {
    let inputs: [&[u8]; 8] = [b"", b"a", b"b", b"aa", b"ab", b"ba", b"bb", b"aab"];
    let mut before = scenario_dfa();
    let mut after = scenario_dfa();
    after.minimize();
    for input in inputs.iter() {
        assert_eq!(before.simulate(input), after.simulate(input));
        assert_eq!(
            before.get_longest_accepting_match(),
            after.get_longest_accepting_match()
        );
    }
}

#[test]
fn minimize_is_idempotent_in_language() {
    let inputs: [&[u8]; 6] = [b"", b"a", b"aa", b"ab", b"ba", b"bb"];
    let mut once = scenario_dfa();
    once.minimize();
    let mut twice = scenario_dfa();
    twice.minimize();
    twice.minimize();
    for input in inputs.iter() {
        assert_eq!(once.simulate(input), twice.simulate(input));
        assert_eq!(
            once.get_longest_accepting_match(),
            twice.get_longest_accepting_match()
        );
    }
}

#[test]
fn print_renders_rows() {
    let d = scenario_dfa();
    let text = d.print();
    let expected = b"- 0 1 2 \n- 1 3 E \n- 2 3 E \n+ 3 E E \n".to_vec();
    assert_eq!(text, expected);
}

#[test]
fn parse_reads_printed_table_back() {
    // printing round-trips through the parser
    let d = scenario_dfa();
    let text = d.print();
    let rows = parse_transition_table(&text).unwrap();
    assert_eq!(rows, d.states);

    let d2 = dfa_from_table(rows, vec![b'a', b'b']).unwrap();
    assert_eq!(d2.states, d.states);
    assert_eq!(d2.alphabet, d.alphabet);
}

#[test]
fn parse_round_trips_after_minimize() {
    let mut d = scenario_dfa();
    d.minimize();
    let rows = parse_transition_table(&d.print()).unwrap();
    assert_eq!(rows, d.states);
}

#[test]
fn parse_rejects_malformed_rows() {
    assert_eq!(
        parse_transition_table(&b"+\n".to_vec()),
        Err(ConfigError::MissingFields)
    );
    assert_eq!(
        parse_transition_table(&b"* 0 E\n".to_vec()),
        Err(ConfigError::BadRowStart)
    );
    assert_eq!(
        parse_transition_table(&b"+ x E\n".to_vec()),
        Err(ConfigError::BadStateId)
    );
    assert_eq!(
        parse_transition_table(&b"+ 0 q\n".to_vec()),
        Err(ConfigError::BadTransition)
    );
    assert_eq!(
        parse_transition_table(&b"+ 0 1 2\n- 1 0\n".to_vec()),
        Err(ConfigError::WidthMismatch)
    );
}

#[test]
fn parse_accepts_empty_text_as_no_rows() {
    assert_eq!(parse_transition_table(&Vec::new()).unwrap(), Vec::new());
}

#[test]
fn dfa_from_table_validates() {
    let alphabet = vec![b'a'];
    assert_eq!(
        dfa_from_table(Vec::new(), alphabet.clone()).err(),
        Some(ConfigError::EmptyTable)
    );
    assert_eq!(
        dfa_from_table(vec![row(false, 0, vec![None, None])], alphabet.clone()).err(),
        Some(ConfigError::WidthMismatch)
    );
    assert_eq!(
        dfa_from_table(vec![row(false, 7, vec![None])], alphabet.clone()).err(),
        Some(ConfigError::BadRowOrder)
    );
    assert_eq!(
        dfa_from_table(vec![row(false, 0, vec![Some(5)])], alphabet.clone()).err(),
        Some(ConfigError::BadDestination)
    );
    assert!(dfa_from_table(vec![row(true, 0, vec![Some(0)])], alphabet).is_ok());
}

#[test]
fn simulate_one_step_advances_and_records() {
    let mut d = scenario_dfa();
    d.simulate_one_step(b'a');
    assert_eq!(d.get_current_state_id(), 1);
    assert!(!d.self_is_accepting());
    d.simulate_one_step(b'a');
    assert_eq!(d.get_current_state_id(), 3);
    assert!(d.self_is_accepting());
    assert_eq!(d.get_longest_accepting_match(), b"aa".to_vec());
    // no move out of the accepting trap state
    d.simulate_one_step(b'a');
    assert!(d.will_not_match);
    assert_eq!(d.get_current_state_id(), 3);
}

#[test]
fn print_single_state_table() {
    let d = DFA::new(vec![row(true, 0, vec![Some(0)])], vec![b'a']).unwrap();
    assert_eq!(d.print(), b"+ 0 0 \n".to_vec());
}

#[test]
fn minimize_never_grows_and_keeps_minimal_tables() {
    // an already-minimal table: no two states share flag and row
    let rows = vec![
        row(false, 0, vec![Some(1), Some(2)]),
        row(false, 1, vec![Some(2), None]),
        row(true, 2, vec![None, None]),
    ];
    let mut d = DFA::new(rows.clone(), vec![b'a', b'b']).unwrap();
    d.minimize();
    assert_eq!(d.size(), 3);
    assert_eq!(d.states, rows);
}
