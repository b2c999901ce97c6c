use thompson_nfa::automaton::{Automaton, Transition};

fn row(automaton: &Automaton, state: usize) -> Vec<(usize, Option<char>)> {
    automaton.transitions(state).iter().map(|t| (t.to, t.symbol)).collect()
}

#[test]
fn new_automaton_is_empty() {
    let automaton = Automaton::new();
    assert_eq!(automaton.states(), 0);
    assert_eq!(automaton.start_state(), None);
    assert!(automaton.accepting_states().is_empty());
}

#[test]
fn states_are_numbered_from_zero() {
    let mut automaton = Automaton::new();
    assert_eq!(automaton.add_state(), 0);
    assert_eq!(automaton.add_state(), 1);
    assert_eq!(automaton.add_state(), 2);
    assert_eq!(automaton.states(), 3);
}

#[test]
fn last_start_state_wins() {
    let mut automaton = Automaton::new();
    automaton.add_state();
    automaton.add_state();
    automaton.set_start_state(0);
    automaton.set_start_state(1);
    assert_eq!(automaton.start_state(), Some(1));
}

#[test]
fn accepting_marks_are_set_and_taken_away() {
    let mut automaton = Automaton::new();
    automaton.add_state();
    automaton.add_state();
    automaton.add_state();
    automaton.set_accepting(2, true);
    automaton.set_accepting(0, true);
    automaton.set_accepting(2, true);
    let mut marked = automaton.accepting_states().clone();
    marked.sort();
    assert_eq!(marked, vec![0, 2]);
    assert!(automaton.is_accepting(0));
    assert!(!automaton.is_accepting(1));
    assert!(automaton.is_accepting(2));
    automaton.set_accepting(2, false);
    automaton.set_accepting(1, false);
    assert_eq!(automaton.accepting_states(), &vec![0]);
    assert_eq!(automaton.accepting_state(), 0);
    automaton.clear_accepting();
    assert!(automaton.accepting_states().is_empty());
    assert!(!automaton.is_accepting(0));
}

#[test]
fn several_transitions_between_two_states() {
    let mut automaton = Automaton::new();
    automaton.add_state();
    automaton.add_state();
    automaton.add_transition(0, 1, Some('a'));
    automaton.add_transition(0, 1, Some('b'));
    automaton.add_transition(0, 1, None);
    automaton.add_transition(1, 0, Some('a'));
    assert_eq!(row(&automaton, 0), vec![(1, Some('a')), (1, Some('b')), (1, None)]);
    assert_eq!(row(&automaton, 1), vec![(0, Some('a'))]);
    assert_eq!(automaton.transitions(1)[0], Transition { to: 0, symbol: Some('a') });
}

#[test]
fn merge_moves_the_other_automaton_up() {
    let mut first = Automaton::new();
    first.add_state();
    first.add_state();
    first.add_state();
    first.set_start_state(0);
    first.set_accepting(2, true);
    first.add_transition(0, 1, Some('x'));
    first.add_transition(1, 2, None);

    let mut second = Automaton::new();
    second.add_state();
    second.add_state();
    second.set_start_state(1);
    second.set_accepting(0, true);
    second.add_transition(1, 0, Some('y'));
    second.add_transition(0, 0, None);
    second.add_transition(1, 1, Some('z'));

    first.add_states_and_transitions(second);

    assert_eq!(first.states(), 5);
    assert_eq!(first.start_state(), Some(0));
    let mut marked = first.accepting_states().clone();
    marked.sort();
    assert_eq!(marked, vec![2, 3]);
    assert_eq!(row(&first, 0), vec![(1, Some('x'))]);
    assert_eq!(row(&first, 1), vec![(2, None)]);
    assert_eq!(row(&first, 2), vec![]);
    assert_eq!(row(&first, 3), vec![(3, None)]);
    assert_eq!(row(&first, 4), vec![(3, Some('y')), (4, Some('z'))]);
}

#[test]
fn merge_into_an_empty_automaton_keeps_the_numbers() {
    let mut first = Automaton::new();
    let mut second = Automaton::new();
    second.add_state();
    second.add_state();
    second.set_start_state(0);
    second.set_accepting(1, true);
    second.add_transition(0, 1, Some('a'));
    first.add_states_and_transitions(second);
    assert_eq!(first.states(), 2);
    assert_eq!(first.start_state(), None);
    assert_eq!(first.accepting_states(), &vec![1]);
    assert_eq!(row(&first, 0), vec![(1, Some('a'))]);
}

#[test]
fn merge_of_an_empty_automaton_changes_nothing() {
    let mut first = Automaton::new();
    first.add_state();
    first.set_start_state(0);
    first.set_accepting(0, true);
    first.add_transition(0, 0, Some('a'));
    first.add_states_and_transitions(Automaton::new());
    assert_eq!(first.states(), 1);
    assert_eq!(first.start_state(), Some(0));
    assert_eq!(first.accepting_states(), &vec![0]);
    assert_eq!(row(&first, 0), vec![(0, Some('a'))]);
}

#[test]
fn merge_adds_no_glue() {
    let mut first = Automaton::new();
    first.add_state();
    let mut second = Automaton::new();
    second.add_state();
    first.add_states_and_transitions(second);
    assert_eq!(first.states(), 2);
    assert!(first.transitions(0).is_empty());
    assert!(first.transitions(1).is_empty());
}
