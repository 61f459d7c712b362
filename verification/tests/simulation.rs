use sugarcubes_core::automata::finite_automaton::{
    FiniteAutomaton, FiniteAutomatonConfiguration, FiniteAutomatonTransition, MAX_ITERS,
};
use sugarcubes_core::automata::{Configuration, SimulateAutomaton, EMPTY_STRING};

fn edge(from: u32, to: u32, symbol: char) -> FiniteAutomatonTransition {
    FiniteAutomatonTransition::new(from, to, symbol)
}

fn configuration(state: u32, remaining: &str) -> FiniteAutomatonConfiguration {
    FiniteAutomatonConfiguration::new(state, remaining.to_string())
}

fn plain(configurations: Vec<FiniteAutomatonConfiguration>) -> Vec<(u32, String)> {
    let mut plain: Vec<(u32, String)> =
        configurations.into_iter().map(|c| (c.state(), c.remaining_string)).collect();
    plain.sort();
    plain
}

fn automaton_with_states(count: u32) -> FiniteAutomaton {
    let mut fa = FiniteAutomaton::default();
    for _ in 0..count {
        fa.automaton.add_new_state();
    }
    fa
}

/// States 0 to 3, initial 0, final 2, and a branch right at the start.
fn branching() -> FiniteAutomaton {
    let mut fa = automaton_with_states(4);
    fa.automaton.set_initial(0);
    fa.automaton.set_final(2, true);
    fa.automaton.add_transition(edge(0, 1, 'x'));
    fa.automaton.add_transition(edge(0, 2, EMPTY_STRING));
    fa.automaton.add_transition(edge(1, 1, 'a'));
    fa.automaton.add_transition(edge(1, 2, 'a'));
    fa.automaton.add_transition(edge(1, 2, 'b'));
    fa.automaton.add_transition(edge(2, 3, 'b'));
    fa.automaton.add_transition(edge(3, 2, 'c'));
    fa
}

#[test]
fn the_empty_label_is_a_lambda() {
    assert_eq!(EMPTY_STRING, 'λ');
}

#[test]
fn a_configuration_keeps_its_state_and_input() {
    let made = configuration(3, "abc");
    assert_eq!(made.state(), 3);
    assert_eq!(made.remaining_string, "abc");
    assert_eq!(made.clone(), made);
}

#[test]
fn next_symbol_splits_off_the_first_character() {
    let mut made = configuration(0, "abc");
    assert_eq!(made.next_symbol(), Some(('a', "bc".to_string())));
    assert_eq!(made.remaining_string, "abc");
    let mut last = configuration(0, "z");
    assert_eq!(last.next_symbol(), Some(('z', String::new())));
}

#[test]
fn next_symbol_of_an_empty_input_is_none() {
    let mut made = configuration(5, "");
    assert_eq!(made.next_symbol(), None);
    assert_eq!(made.state(), 5);
}

#[test]
fn next_symbol_takes_whole_characters() {
    let mut made = configuration(0, "λé✓a");
    assert_eq!(made.next_symbol(), Some(('λ', "é✓a".to_string())));
    let mut rest = configuration(0, "é✓a");
    assert_eq!(rest.next_symbol(), Some(('é', "✓a".to_string())));
}

#[test]
fn initial_configurations_start_at_the_initial_state() {
    let mut fa = automaton_with_states(2);
    fa.automaton.set_initial(1);
    assert_eq!(plain(fa.initial_configurations("xabc")), vec![(1, "xabc".to_string())]);
    assert_eq!(plain(fa.initial_configurations("")), vec![(1, String::new())]);
}

#[test]
fn without_an_initial_state_there_is_no_configuration() {
    let fa = automaton_with_states(2);
    assert!(fa.initial_configurations("abc").is_empty());
    assert!(fa.initial_configurations("").is_empty());
    let empty = FiniteAutomaton::default();
    assert!(empty.initial_configurations("anything").is_empty());
}

#[test]
fn without_an_initial_state_every_input_is_rejected() {
    let mut fa = automaton_with_states(2);
    fa.automaton.set_final(0, true);
    fa.automaton.set_final(1, true);
    fa.automaton.add_transition(edge(0, 1, EMPTY_STRING));
    assert!(!fa.check_input(""));
    assert!(!fa.check_input("a"));
    fa.automaton.set_initial(0);
    assert!(fa.check_input(""));
    fa.automaton.remove_initial();
    assert!(!fa.check_input(""));
    assert!(!FiniteAutomaton::default().check_input(""));
}

#[test]
fn a_step_follows_empty_and_matching_transitions() {
    let fa = branching();
    assert_eq!(
        plain(fa.step(configuration(0, "xabc"))),
        vec![(1, "abc".to_string()), (2, "xabc".to_string())]
    );
    assert_eq!(
        plain(fa.step(configuration(1, "abc"))),
        vec![(1, "bc".to_string()), (2, "bc".to_string())]
    );
    assert_eq!(plain(fa.step(configuration(1, "bc"))), vec![(2, "c".to_string())]);
    assert_eq!(plain(fa.step(configuration(3, "c"))), vec![(2, String::new())]);
}

#[test]
fn a_step_puts_the_moves_that_read_nothing_first() {
    let mut fa = automaton_with_states(3);
    fa.automaton.add_transition(edge(0, 1, 'a'));
    fa.automaton.add_transition(edge(0, 2, EMPTY_STRING));
    let successors = fa.step(configuration(0, "ab"));
    assert_eq!(successors.len(), 2);
    assert_eq!(successors[0], configuration(2, "ab"));
    assert_eq!(successors[1], configuration(1, "b"));
}

#[test]
fn a_step_with_no_matching_transition_yields_nothing() {
    let fa = branching();
    assert!(fa.step(configuration(2, "xabc")).is_empty());
    assert!(fa.step(configuration(2, "c")).is_empty());
    assert!(fa.step(configuration(9, "a")).is_empty());
}

#[test]
fn a_step_on_empty_input_takes_only_empty_transitions() {
    let fa = branching();
    assert_eq!(plain(fa.step(configuration(0, ""))), vec![(2, String::new())]);
    assert!(fa.step(configuration(1, "")).is_empty());
}

#[test]
fn an_empty_transition_is_also_taken_by_reading_its_own_label() {
    let mut fa = automaton_with_states(2);
    fa.automaton.add_transition(edge(0, 1, EMPTY_STRING));
    assert_eq!(
        plain(fa.step(configuration(0, "λa"))),
        vec![(1, "a".to_string()), (1, "λa".to_string())]
    );
}

#[test]
fn step_all_joins_the_successors_of_each_configuration() {
    let fa = branching();
    let stepped = fa.step_all(vec![configuration(2, "xabc"), configuration(1, "abc")]);
    assert_eq!(plain(stepped), vec![(1, "bc".to_string()), (2, "bc".to_string())]);
    let stepped = fa.step_all(vec![configuration(1, "bc"), configuration(2, "bc")]);
    assert_eq!(stepped, vec![configuration(2, "c"), configuration(3, "c")]);
    assert!(fa.step_all(Vec::new()).is_empty());
}

#[test]
fn step_all_keeps_equal_configurations_apart() {
    let mut fa = automaton_with_states(3);
    fa.automaton.add_transition(edge(0, 2, 'a'));
    fa.automaton.add_transition(edge(1, 2, 'a'));
    let stepped = fa.step_all(vec![
        configuration(0, "ab"),
        configuration(1, "ab"),
        configuration(0, "ab"),
    ]);
    assert_eq!(
        stepped,
        vec![configuration(2, "b"), configuration(2, "b"), configuration(2, "b")]
    );
}

#[test]
fn an_empty_transition_alone_accepts_only_the_empty_input() {
    let mut fa = automaton_with_states(2);
    fa.automaton.set_initial(0);
    fa.automaton.set_final(1, true);
    fa.automaton.add_transition(edge(0, 1, EMPTY_STRING));
    assert!(fa.check_input(""));
    assert!(!fa.check_input("a"));
}

#[test]
fn the_branching_automaton_accepts_xabc() {
    let fa = branching();
    assert!(fa.check_input("xabc"));
}

#[test]
fn the_branching_automaton_decides_other_inputs() {
    let fa = branching();
    assert!(fa.check_input(""));
    assert!(fa.check_input("xa"));
    assert!(fa.check_input("xaaab"));
    assert!(fa.check_input("bc"));
    assert!(fa.check_input("xbbcbc"));
    assert!(fa.check_input("xab"));
    assert!(!fa.check_input("x"));
    assert!(!fa.check_input("xac"));
    assert!(!fa.check_input("b"));
    assert!(!fa.check_input("c"));
    assert!(!fa.check_input("xabcd"));
}

#[test]
fn an_initial_state_that_is_final_accepts_the_empty_input_at_once() {
    let mut fa = automaton_with_states(1);
    fa.automaton.set_initial(0);
    fa.automaton.set_final(0, true);
    assert!(fa.check_input(""));
    assert!(!fa.check_input("a"));
}

#[test]
fn an_empty_self_loop_does_not_hang() {
    let mut fa = automaton_with_states(2);
    fa.automaton.set_initial(0);
    fa.automaton.set_final(1, true);
    fa.automaton.add_transition(edge(0, 0, EMPTY_STRING));
    assert!(!fa.check_input(""));
    assert!(!fa.check_input("a"));
    fa.automaton.add_transition(edge(0, 1, 'a'));
    assert!(fa.check_input("a"));
    assert!(!fa.check_input("aa"));
}

#[test]
fn an_input_is_rejected_when_it_needs_as_many_rounds_as_the_ceiling() {
    let mut fa = automaton_with_states(1);
    fa.automaton.set_initial(0);
    fa.automaton.set_final(0, true);
    fa.automaton.add_transition(edge(0, 0, 'a'));
    assert_eq!(MAX_ITERS, 1000);
    assert!(fa.check_input(&"a".repeat(MAX_ITERS - 1)));
    assert!(!fa.check_input(&"a".repeat(MAX_ITERS)));
    assert!(!fa.check_input(&"a".repeat(MAX_ITERS + 1)));
}

#[test]
fn editing_the_graph_shows_in_the_next_check() {
    let mut fa = branching();
    assert!(fa.check_input("xabc"));
    fa.automaton.remove_transition(edge(3, 2, 'c'));
    assert!(!fa.check_input("xabc"));
    fa.automaton.add_transition(edge(3, 2, 'c'));
    assert!(fa.check_input("xabc"));
    fa.automaton.remove_state(3);
    assert!(!fa.check_input("xabc"));
    assert!(fa.check_input("xab"));
    fa.automaton.set_final(2, false);
    assert!(!fa.check_input("xab"));
}
