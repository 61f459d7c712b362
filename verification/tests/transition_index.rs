use sugarcubes_core::automata::finite_automaton::FiniteAutomatonTransition;
use sugarcubes_core::automata::{Transition, TransitionSet};

fn edge(from: u32, to: u32, symbol: char) -> FiniteAutomatonTransition {
    FiniteAutomatonTransition::new(from, to, symbol)
}

fn sorted(listing: Vec<&FiniteAutomatonTransition>) -> Vec<(u32, u32, char)> {
    let mut plain: Vec<(u32, u32, char)> =
        listing.into_iter().map(|t| (t.from(), t.to(), t.symbol())).collect();
    plain.sort();
    plain
}

fn index_with_states(count: u32) -> TransitionSet {
    let mut index = TransitionSet::default();
    for state in 0..count {
        index.register_state(state);
    }
    index
}

#[test]
fn a_new_index_is_empty() {
    let index = TransitionSet::default();
    assert_eq!(index.len(), 0);
    assert!(index.transitions().is_empty());
    assert!(index.from(0).is_empty());
    assert!(index.to(0).is_empty());
    assert!(index.with(0).is_empty());
}

#[test]
fn an_added_transition_is_found_from_both_ends() {
    let mut index = index_with_states(3);
    index.add_transition(edge(0, 1, 'a'));
    assert_eq!(index.len(), 1);
    assert_eq!(sorted(index.from(0)), vec![(0, 1, 'a')]);
    assert_eq!(sorted(index.to(1)), vec![(0, 1, 'a')]);
    assert_eq!(sorted(index.with(0)), vec![(0, 1, 'a')]);
    assert_eq!(sorted(index.with(1)), vec![(0, 1, 'a')]);
    assert!(index.to(0).is_empty());
    assert!(index.from(1).is_empty());
    assert!(index.with(2).is_empty());
    assert_eq!(sorted(index.transitions()), vec![(0, 1, 'a')]);
}

#[test]
fn adding_the_same_transition_twice_keeps_one() {
    let mut index = index_with_states(2);
    index.add_transition(edge(0, 1, 'a'));
    let after_first = index.from(0).len();
    index.add_transition(edge(0, 1, 'a'));
    assert_eq!(index.from(0).len(), after_first);
    assert_eq!(index.from(0).len(), 1);
    assert_eq!(index.to(1).len(), 1);
    assert_eq!(index.len(), 1);
}

#[test]
fn transitions_that_differ_in_one_part_are_all_kept() {
    let mut index = index_with_states(3);
    index.add_transition(edge(0, 1, 'a'));
    index.add_transition(edge(0, 1, 'b'));
    index.add_transition(edge(0, 2, 'a'));
    index.add_transition(edge(1, 1, 'a'));
    assert_eq!(index.len(), 4);
    assert_eq!(sorted(index.from(0)), vec![(0, 1, 'a'), (0, 1, 'b'), (0, 2, 'a')]);
    assert_eq!(sorted(index.to(1)), vec![(0, 1, 'a'), (0, 1, 'b'), (1, 1, 'a')]);
    assert_eq!(sorted(index.with(1)), vec![(0, 1, 'a'), (0, 1, 'b'), (1, 1, 'a')]);
}

#[test]
fn a_self_loop_is_listed_once_among_the_incident_transitions() {
    let mut index = index_with_states(1);
    index.add_transition(edge(0, 0, 'a'));
    assert_eq!(sorted(index.from(0)), vec![(0, 0, 'a')]);
    assert_eq!(sorted(index.to(0)), vec![(0, 0, 'a')]);
    assert_eq!(sorted(index.with(0)), vec![(0, 0, 'a')]);
}

#[test]
fn removing_a_transition_takes_it_out_of_both_indices() {
    let mut index = index_with_states(2);
    index.add_transition(edge(0, 1, 'a'));
    index.add_transition(edge(0, 1, 'b'));
    index.remove_transition(edge(0, 1, 'a'));
    assert_eq!(index.len(), 1);
    assert_eq!(sorted(index.from(0)), vec![(0, 1, 'b')]);
    assert_eq!(sorted(index.to(1)), vec![(0, 1, 'b')]);
    assert_eq!(sorted(index.transitions()), vec![(0, 1, 'b')]);
}

#[test]
fn removing_a_transition_that_is_not_there_changes_nothing() {
    let mut index = index_with_states(2);
    index.add_transition(edge(0, 1, 'a'));
    index.remove_transition(edge(1, 0, 'a'));
    index.remove_transition(edge(0, 1, 'b'));
    index.remove_transition(edge(5, 6, 'a'));
    assert_eq!(sorted(index.transitions()), vec![(0, 1, 'a')]);
}

#[test]
fn a_removed_transition_can_be_added_again() {
    let mut index = index_with_states(2);
    index.add_transition(edge(0, 1, 'a'));
    index.remove_transition(edge(0, 1, 'a'));
    assert_eq!(index.len(), 0);
    index.add_transition(edge(0, 1, 'a'));
    index.add_transition(edge(1, 0, 'a'));
    assert_eq!(sorted(index.transitions()), vec![(0, 1, 'a'), (1, 0, 'a')]);
    assert_eq!(sorted(index.from(0)), vec![(0, 1, 'a')]);
}

#[test]
fn registering_a_state_twice_keeps_its_transitions() {
    let mut index = index_with_states(2);
    index.add_transition(edge(0, 1, 'a'));
    index.register_state(0);
    index.register_state(1);
    assert_eq!(sorted(index.from(0)), vec![(0, 1, 'a')]);
    assert_eq!(sorted(index.to(1)), vec![(0, 1, 'a')]);
}

#[test]
fn unregistering_a_state_removes_its_transitions_in_both_directions() {
    let mut index = index_with_states(4);
    index.add_transition(edge(0, 1, 'a'));
    index.add_transition(edge(1, 2, 'b'));
    index.add_transition(edge(2, 1, 'c'));
    index.add_transition(edge(1, 1, 'd'));
    index.add_transition(edge(2, 3, 'e'));
    index.add_transition(edge(3, 0, 'f'));
    index.unregister_state(1);
    assert!(index.with(1).is_empty());
    assert!(index.from(1).is_empty());
    assert!(index.to(1).is_empty());
    assert_eq!(sorted(index.transitions()), vec![(2, 3, 'e'), (3, 0, 'f')]);
    assert!(index.from(0).is_empty());
    assert_eq!(sorted(index.to(0)), vec![(3, 0, 'f')]);
    assert_eq!(sorted(index.from(2)), vec![(2, 3, 'e')]);
    assert!(index.to(2).is_empty());
    for transition in index.transitions() {
        assert_ne!(transition.from(), 1);
        assert_ne!(transition.to(), 1);
    }
}

#[test]
fn unregistering_a_state_that_is_not_registered_changes_nothing() {
    let mut index = index_with_states(2);
    index.add_transition(edge(0, 1, 'a'));
    index.unregister_state(9);
    assert_eq!(sorted(index.transitions()), vec![(0, 1, 'a')]);
    assert_eq!(sorted(index.from(0)), vec![(0, 1, 'a')]);
}

#[test]
fn a_state_can_be_registered_again_after_it_was_unregistered() {
    let mut index = index_with_states(2);
    index.add_transition(edge(0, 1, 'a'));
    index.unregister_state(1);
    index.register_state(1);
    assert!(index.with(1).is_empty());
    index.add_transition(edge(1, 0, 'b'));
    assert_eq!(sorted(index.with(1)), vec![(1, 0, 'b')]);
    assert_eq!(sorted(index.with(0)), vec![(1, 0, 'b')]);
}

#[test]
fn states_have_loop_needs_a_transition_each_way() {
    let mut index = index_with_states(3);
    index.add_transition(edge(0, 1, 'a'));
    assert!(!index.states_have_loop(0, 1));
    assert!(!index.states_have_loop(1, 0));
    index.add_transition(edge(1, 0, 'b'));
    assert!(index.states_have_loop(0, 1));
    assert!(index.states_have_loop(1, 0));
    assert!(!index.states_have_loop(0, 2));
    assert!(!index.states_have_loop(0, 0));
    index.add_transition(edge(2, 2, 'c'));
    assert!(index.states_have_loop(2, 2));
    assert!(!index.states_have_loop(7, 0));
}

#[test]
fn states_have_loop_gives_the_same_answer_in_either_order() {
    let mut index = index_with_states(4);
    index.add_transition(edge(0, 1, 'a'));
    index.add_transition(edge(1, 0, 'b'));
    index.add_transition(edge(1, 2, 'c'));
    index.add_transition(edge(3, 3, 'd'));
    for a in 0..5 {
        for b in 0..5 {
            assert_eq!(index.states_have_loop(a, b), index.states_have_loop(b, a));
        }
    }
}

#[test]
fn many_transitions_survive_removals_in_between() {
    let mut index = index_with_states(10);
    for from in 0..10 {
        for to in 0..10 {
            index.add_transition(edge(from, to, 'x'));
        }
    }
    assert_eq!(index.len(), 100);
    for from in 0..10 {
        index.remove_transition(edge(from, from, 'x'));
    }
    assert_eq!(index.len(), 90);
    for state in 0..10 {
        assert_eq!(index.from(state).len(), 9);
        assert_eq!(index.to(state).len(), 9);
        assert_eq!(index.with(state).len(), 18);
    }
    index.unregister_state(4);
    assert_eq!(index.len(), 72);
    index.register_state(4);
    for from in 0..10 {
        index.add_transition(edge(from, from, 'y'));
    }
    assert_eq!(index.len(), 82);
    assert_eq!(sorted(index.with(4)), vec![(4, 4, 'y')]);
}

#[test]
fn a_default_transition_joins_state_zero_to_itself() {
    let transition = FiniteAutomatonTransition::default();
    assert_eq!(transition.from(), 0);
    assert_eq!(transition.to(), 0);
    assert_eq!(transition.symbol(), '\0');
}

#[test]
fn transitions_are_equal_when_all_three_parts_are() {
    assert_eq!(edge(1, 2, 'a'), edge(1, 2, 'a'));
    assert_ne!(edge(1, 2, 'a'), edge(2, 1, 'a'));
    assert_ne!(edge(1, 2, 'a'), edge(1, 3, 'a'));
    assert_ne!(edge(1, 2, 'a'), edge(1, 2, 'b'));
    let transition = edge(4, 5, 'z');
    assert_eq!(transition.from(), 4);
    assert_eq!(transition.to(), 5);
    assert_eq!(transition.symbol(), 'z');
}
