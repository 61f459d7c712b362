use sugarcubes_core::automata::finite_automaton::FiniteAutomatonTransition;
use sugarcubes_core::automata::{Automaton, Transition};

fn edge(from: u32, to: u32, symbol: char) -> FiniteAutomatonTransition {
    FiniteAutomatonTransition::new(from, to, symbol)
}

fn plain(listing: Vec<&FiniteAutomatonTransition>) -> Vec<(u32, u32, char)> {
    let mut plain: Vec<(u32, u32, char)> =
        listing.into_iter().map(|t| (t.from(), t.to(), t.symbol())).collect();
    plain.sort();
    plain
}

fn states_of(automaton: &Automaton) -> Vec<u32> {
    automaton.states().into_iter().copied().collect()
}

#[test]
fn a_new_automaton_has_nothing() {
    let automaton = Automaton::default();
    assert!(states_of(&automaton).is_empty());
    assert!(automaton.transitions().is_empty());
    assert_eq!(automaton.transition_count(), 0);
    assert!(!automaton.has_initial());
    assert_eq!(automaton.initial(), None);
    assert!(!automaton.is_final(0));
}

#[test]
fn new_states_are_numbered_from_zero() {
    let mut automaton = Automaton::default();
    assert_eq!(automaton.get_next_state_id(), 0);
    assert_eq!(automaton.add_new_state(), 0);
    assert_eq!(automaton.get_next_state_id(), 1);
    assert_eq!(automaton.add_new_state(), 1);
    assert_eq!(automaton.add_new_state(), 2);
    assert_eq!(states_of(&automaton), vec![0, 1, 2]);
}

#[test]
fn a_small_automaton_has_a_free_state_id() {
    let mut automaton = Automaton::default();
    assert!(automaton.has_free_state_id());
    assert!(automaton.try_add_state_with_id(u32::MAX));
    assert!(automaton.try_add_state_with_id(0));
    assert!(automaton.has_free_state_id());
    assert_eq!(automaton.get_next_state_id(), 1);
}

#[test]
fn get_next_state_id_does_not_add_a_state() {
    let mut automaton = Automaton::default();
    assert_eq!(automaton.get_next_state_id(), 0);
    assert_eq!(automaton.get_next_state_id(), 0);
    assert!(states_of(&automaton).is_empty());
}

#[test]
fn a_removed_id_is_reused_by_the_next_new_state() {
    let mut automaton = Automaton::default();
    for _ in 0..4 {
        automaton.add_new_state();
    }
    automaton.remove_state(3);
    assert_eq!(automaton.add_new_state(), 3);
    assert_eq!(automaton.add_new_state(), 4);
    assert_eq!(states_of(&automaton), vec![0, 1, 2, 3, 4]);
}

#[test]
fn the_smallest_free_id_is_taken_first() {
    let mut automaton = Automaton::default();
    for _ in 0..5 {
        automaton.add_new_state();
    }
    automaton.remove_state(3);
    automaton.remove_state(1);
    assert_eq!(states_of(&automaton), vec![0, 2, 4]);
    assert_eq!(automaton.add_new_state(), 1);
    assert_eq!(automaton.add_new_state(), 3);
    assert_eq!(automaton.add_new_state(), 5);
}

#[test]
fn a_state_can_be_added_under_a_chosen_id() {
    let mut automaton = Automaton::default();
    assert!(automaton.try_add_state_with_id(7));
    assert!(automaton.try_add_state_with_id(2));
    assert!(!automaton.try_add_state_with_id(7));
    assert_eq!(states_of(&automaton), vec![2, 7]);
    assert_eq!(automaton.add_new_state(), 0);
    assert_eq!(automaton.add_new_state(), 1);
    assert_eq!(automaton.add_new_state(), 3);
    assert!(automaton.try_add_state_with_id(u32::MAX));
    assert_eq!(states_of(&automaton), vec![0, 1, 2, 3, 7, u32::MAX]);
}

#[test]
fn states_come_in_ascending_order() {
    let mut automaton = Automaton::default();
    for id in [9, 3, 27, 0, 14] {
        assert!(automaton.try_add_state_with_id(id));
    }
    assert_eq!(states_of(&automaton), vec![0, 3, 9, 14, 27]);
    let iterated: Vec<u32> = automaton.states_iter().copied().collect();
    assert_eq!(iterated, vec![0, 3, 9, 14, 27]);
}

#[test]
fn a_transition_needs_both_endpoints() {
    let mut automaton = Automaton::default();
    automaton.add_new_state();
    automaton.add_new_state();
    automaton.add_transition(edge(0, 5, 'a'));
    automaton.add_transition(edge(5, 0, 'a'));
    automaton.add_transition(edge(5, 6, 'a'));
    assert_eq!(automaton.transition_count(), 0);
    assert!(automaton.transitions_with(0).is_empty());
    assert!(automaton.transitions_with(5).is_empty());
    automaton.add_transition(edge(0, 1, 'a'));
    assert_eq!(plain(automaton.transitions()), vec![(0, 1, 'a')]);
}

#[test]
fn duplicate_transitions_are_added_once() {
    let mut automaton = Automaton::default();
    automaton.add_new_state();
    automaton.add_new_state();
    automaton.add_transition(edge(0, 1, 'a'));
    let before = automaton.transitions_from(0).len();
    automaton.add_transition(edge(0, 1, 'a'));
    assert_eq!(automaton.transitions_from(0).len(), before);
    assert_eq!(automaton.transition_count(), 1);
}

#[test]
fn transitions_are_listed_by_source_target_and_either() {
    let mut automaton = Automaton::default();
    for _ in 0..3 {
        automaton.add_new_state();
    }
    automaton.add_transition(edge(0, 1, 'a'));
    automaton.add_transition(edge(1, 2, 'b'));
    automaton.add_transition(edge(2, 1, 'c'));
    assert_eq!(plain(automaton.transitions_from(1)), vec![(1, 2, 'b')]);
    assert_eq!(plain(automaton.transitions_to(1)), vec![(0, 1, 'a'), (2, 1, 'c')]);
    assert_eq!(
        plain(automaton.transitions_with(1)),
        vec![(0, 1, 'a'), (1, 2, 'b'), (2, 1, 'c')]
    );
    assert!(automaton.transitions_from(8).is_empty());
    assert!(automaton.transitions_to(8).is_empty());
    assert!(automaton.transitions_with(8).is_empty());
}

#[test]
fn removing_a_transition_leaves_the_others() {
    let mut automaton = Automaton::default();
    automaton.add_new_state();
    automaton.add_new_state();
    automaton.add_transition(edge(0, 1, 'a'));
    automaton.add_transition(edge(0, 1, 'b'));
    automaton.remove_transition(edge(0, 1, 'a'));
    automaton.remove_transition(edge(0, 1, 'z'));
    automaton.remove_transition(edge(0, 9, 'b'));
    assert_eq!(plain(automaton.transitions()), vec![(0, 1, 'b')]);
}

#[test]
fn removing_a_state_cleans_up_after_it() {
    let mut automaton = Automaton::default();
    for _ in 0..3 {
        automaton.add_new_state();
    }
    automaton.set_initial(1);
    automaton.set_final(1, true);
    automaton.set_final(2, true);
    automaton.add_transition(edge(0, 1, 'a'));
    automaton.add_transition(edge(1, 2, 'b'));
    automaton.add_transition(edge(1, 1, 'c'));
    automaton.add_transition(edge(2, 0, 'd'));
    automaton.remove_state(1);
    assert_eq!(states_of(&automaton), vec![0, 2]);
    assert!(automaton.transitions_with(1).is_empty());
    assert_eq!(plain(automaton.transitions()), vec![(2, 0, 'd')]);
    for transition in automaton.transitions() {
        assert!(transition.from() != 1 && transition.to() != 1);
    }
    assert_eq!(automaton.initial(), None);
    assert!(!automaton.has_initial());
    assert!(!automaton.is_final(1));
    assert!(automaton.is_final(2));
}

#[test]
fn removing_another_state_keeps_the_initial_state() {
    let mut automaton = Automaton::default();
    automaton.add_new_state();
    automaton.add_new_state();
    automaton.set_initial(0);
    automaton.remove_state(1);
    assert_eq!(automaton.initial(), Some(0));
    automaton.remove_state(5);
    assert_eq!(automaton.initial(), Some(0));
    assert_eq!(states_of(&automaton), vec![0]);
}

#[test]
fn a_state_added_again_starts_without_transitions() {
    let mut automaton = Automaton::default();
    automaton.add_new_state();
    automaton.add_new_state();
    automaton.add_transition(edge(0, 1, 'a'));
    automaton.add_transition(edge(1, 0, 'b'));
    automaton.remove_state(1);
    assert!(automaton.try_add_state_with_id(1));
    assert!(automaton.transitions_with(1).is_empty());
    assert!(automaton.transitions_with(0).is_empty());
    assert_eq!(automaton.transition_count(), 0);
}

#[test]
fn only_a_registered_state_becomes_initial() {
    let mut automaton = Automaton::default();
    automaton.add_new_state();
    automaton.add_new_state();
    automaton.set_initial(4);
    assert_eq!(automaton.initial(), None);
    automaton.set_initial(1);
    assert_eq!(automaton.initial(), Some(1));
    assert!(automaton.has_initial());
    automaton.set_initial(4);
    assert_eq!(automaton.initial(), Some(1));
    automaton.set_initial(0);
    assert_eq!(automaton.initial(), Some(0));
    automaton.remove_initial();
    assert_eq!(automaton.initial(), None);
    assert!(!automaton.has_initial());
    automaton.remove_initial();
    assert_eq!(automaton.initial(), None);
}

#[test]
fn final_marks_are_set_and_cleared() {
    let mut automaton = Automaton::default();
    automaton.add_new_state();
    automaton.add_new_state();
    automaton.set_final(0, true);
    automaton.set_final(0, true);
    assert!(automaton.is_final(0));
    assert!(!automaton.is_final(1));
    automaton.set_final(1, false);
    assert!(!automaton.is_final(1));
    automaton.set_final(0, false);
    assert!(!automaton.is_final(0));
}

#[test]
fn states_have_loop_is_symmetric_in_the_graph() {
    let mut automaton = Automaton::default();
    for _ in 0..3 {
        automaton.add_new_state();
    }
    automaton.add_transition(edge(0, 1, 'a'));
    automaton.add_transition(edge(1, 0, 'b'));
    automaton.add_transition(edge(1, 2, 'c'));
    assert!(automaton.states_have_loop(0, 1));
    assert!(automaton.states_have_loop(1, 0));
    assert!(!automaton.states_have_loop(1, 2));
    assert!(!automaton.states_have_loop(2, 1));
    for a in 0..4 {
        for b in 0..4 {
            assert_eq!(automaton.states_have_loop(a, b), automaton.states_have_loop(b, a));
        }
    }
}
