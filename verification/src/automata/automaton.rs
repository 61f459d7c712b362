//! The automaton graph: the registered states, the transitions between
//! them, the initial state and the final states.

use vstd::prelude::*;

use std::collections::btree_map::Keys;
use std::collections::{BTreeMap, HashSet};
use vstd::std_specs::cmp::OrdSpec;
use vstd::std_specs::iter::IteratorSpec;

use crate::automata::collections::{enumerates, lemma_enumerates, lemma_some_u32_is_left, lists};
use crate::automata::finite_automaton::finite_automaton_transition::FiniteAutomatonTransition;
use crate::automata::slots::SLOT_LIMIT;
use crate::automata::state::State;
use crate::automata::transition::Transition;
use crate::automata::transition_set::{
    clear_of, entering, incident, leaving, mutually_linked, TransitionSet,
};

verus! {

broadcast use {
    vstd::std_specs::hash::group_hash_axioms,
    vstd::std_specs::btree::group_btree_axioms,
    vstd::laws_cmp::group_laws_cmp,
};

/// What an automaton graph holds.
pub struct AutomatonView {
    /// The identifiers of the registered states.
    pub states: Set<u32>,
    /// The transitions, each of which joins two registered states.
    pub transitions: Set<FiniteAutomatonTransition>,
    /// The initial state, if one is set.
    pub initial: Option<u32>,
    /// The states marked as final.
    pub finals: Set<u32>,
}

impl AutomatonView {
    /// The graph with the state `id` registered.
    pub open spec fn with_state(self, id: u32) -> AutomatonView {
        AutomatonView { states: self.states.insert(id), ..self }
    }

    /// The graph without the state `id`: without the transitions that leave
    /// or enter it, and without its marks as initial and as final state.
    pub open spec fn without_state(self, id: u32) -> AutomatonView {
        AutomatonView {
            states: self.states.remove(id),
            transitions: clear_of(self.transitions, id),
            initial: if self.initial == Some(id) {
                None
            } else {
                self.initial
            },
            finals: self.finals.remove(id),
        }
    }

    /// The graph with `transition` added, if both of its endpoints are
    /// registered states; the same graph otherwise.
    pub open spec fn with_transition(self, transition: FiniteAutomatonTransition) -> AutomatonView {
        if self.states.contains(transition.source()) && self.states.contains(
            transition.target(),
        ) {
            AutomatonView { transitions: self.transitions.insert(transition), ..self }
        } else {
            self
        }
    }

    /// The graph without `transition`.
    pub open spec fn without_transition(
        self,
        transition: FiniteAutomatonTransition,
    ) -> AutomatonView {
        AutomatonView { transitions: self.transitions.remove(transition), ..self }
    }

    /// The graph with `state` as its initial state, if `state` is
    /// registered; the same graph otherwise.
    pub open spec fn with_initial(self, state: u32) -> AutomatonView {
        if self.states.contains(state) {
            AutomatonView { initial: Some(state), ..self }
        } else {
            self
        }
    }

    /// The graph without an initial state.
    pub open spec fn without_initial(self) -> AutomatonView {
        AutomatonView { initial: None, ..self }
    }

    /// The graph with `state` marked as final if `value` holds, and not
    /// marked otherwise.
    pub open spec fn with_final(self, state: u32, value: bool) -> AutomatonView {
        AutomatonView {
            finals: if value {
                self.finals.insert(state)
            } else {
                self.finals.remove(state)
            },
            ..self
        }
    }
}

/// Whether `id` is the smallest identifier that `states` does not hold.
pub open spec fn is_next_state_id(states: Set<u32>, id: u32) -> bool {
    &&& !states.contains(id)
    &&& forall|smaller: u32| smaller < id ==> states.contains(smaller)
}

/// An automaton holding a state graph: the states, the transitions between
/// them, at most one initial state, and the final states.
pub struct Automaton {
    /// Identifies states by an ID.
    states: BTreeMap<u32, State>,
    transitions: TransitionSet,
    initial_state: Option<u32>,
    final_states: HashSet<u32>,
}

impl View for Automaton {
    type V = AutomatonView;

    closed spec fn view(&self) -> AutomatonView {
        AutomatonView {
            states: self.states@.dom(),
            transitions: self.transitions@.transitions,
            initial: self.initial_state,
            finals: self.final_states@,
        }
    }
}

impl Default for Automaton {
    /// An automaton with no state, no transition, no initial state and no
    /// final state.
    fn default() -> (made: Self)
        ensures
            made.wf(),
            made@.states == Set::<u32>::empty(),
            made@.transitions == Set::<FiniteAutomatonTransition>::empty(),
            made@.initial == None::<u32>,
            made@.finals == Set::<u32>::empty(),
    {
        Automaton {
            states: BTreeMap::new(),
            transitions: TransitionSet::default(),
            initial_state: None,
            final_states: HashSet::new(),
        }
    }
}

impl Automaton {
    /// The invariant of the graph: the transition index is consistent and
    /// knows exactly the registered states, and the initial state, if set,
    /// is registered.
    pub closed spec fn wf(&self) -> bool {
        &&& self.transitions.wf()
        &&& self.transitions@.states == self.states@.dom()
        &&& match self.initial_state {
            Some(state) => self.states@.contains_key(state),
            None => true,
        }
    }

    /// In a well-formed graph the sets of states and of transitions are
    /// finite, every transition joins two registered states, and the initial
    /// state is registered.
    pub proof fn lemma_wf(&self)
        requires
            self.wf(),
        ensures
            self@.states.finite(),
            self@.transitions.finite(),
            forall|t: FiniteAutomatonTransition| #[trigger]
                self@.transitions.contains(t) ==> self@.states.contains(t.source())
                    && self@.states.contains(t.target()),
            self@.initial matches Some(state) ==> self@.states.contains(state),
    {
        self.transitions.lemma_wf();
    }

    /// Create a new state with the smallest free ID, returning the ID.
    pub fn add_new_state(&mut self) -> (id: u32)
        requires
            old(self).wf(),
            exists|free: u32| !old(self)@.states.contains(free),
        ensures
            final(self).wf(),
            is_next_state_id(old(self)@.states, id),
            final(self)@ == old(self)@.with_state(id),
    {
        let id = self.get_next_state_id();
        self.states.insert(id, State {  });
        self.transitions.register_state(id);
        id
    }

    /// Add a state with a given ID, failing if the ID is taken, and
    /// returning whether it succeeded.
    pub fn try_add_state_with_id(&mut self, id: u32) -> (added: bool)
        requires
            old(self).wf(),
        ensures
            final(self).wf(),
            added == !old(self)@.states.contains(id),
            final(self)@ == old(self)@.with_state(id),
    {
        if !self.states.contains_key(&id) {
            self.states.insert(id, State {  });
            self.transitions.register_state(id);
            true
        } else {
            assert(self@.states.insert(id) =~= self@.states);
            false
        }
    }

    /// Removes the state `id`, every transition that leaves or enters it,
    /// and its marks as initial and as final state.
    pub fn remove_state(&mut self, id: u32)
        requires
            old(self).wf(),
        ensures
            final(self).wf(),
            final(self)@ == old(self)@.without_state(id),
            incident(final(self)@.transitions, id) == Set::<FiniteAutomatonTransition>::empty(),
    {
        self.states.remove(&id);
        self.transitions.unregister_state(id);

        // Clean up any invalid data
        if self.initial_state == Some(id) {
            self.initial_state = None;
        }
        self.final_states.remove(&id);
        assert(incident(self@.transitions, id) =~= Set::<FiniteAutomatonTransition>::empty());
    }

    /// Generate an ID by finding the first unused ordinal.
    pub fn get_next_state_id(&mut self) -> (id: u32)
        requires
            old(self).wf(),
            exists|free: u32| !old(self)@.states.contains(free),
        ensures
            *final(self) == *old(self),
            is_next_state_id(old(self)@.states, id),
    {
        let mut id: u32 = 0;
        while self.states.contains_key(&id)
            invariant
                *self == *old(self),
                exists|free: u32| !self@.states.contains(free),
                forall|smaller: u32| smaller < id ==> self@.states.contains(smaller),
            decreases u32::MAX - id,
        {
            proof {
                let free = choose|free: u32| !self@.states.contains(free);
                assert(free > id);
            }
            id = id + 1;
        }
        id
    }

    /// Whether some identifier is free for a new state, as
    /// [`Self::add_new_state`] and [`Self::get_next_state_id`] need it.
    pub fn has_free_state_id(&self) -> (free: bool)
        requires
            self.wf(),
        ensures
            free == exists|id: u32| !self@.states.contains(id),
    {
        proof {
            self.lemma_wf();
            lemma_some_u32_is_left(self@.states);
        }
        self.states.len() <= 0xffff_ffff
    }

    /// The registered states, in ascending order.
    pub fn states(&self) -> (listing: Vec<&u32>)
        requires
            self.wf(),
        ensures
            listing@.unref().to_set() == self@.states,
            listing@.len() == self@.states.len(),
            forall|i: int, j: int|
                0 <= i < j < listing@.len() ==> *#[trigger] listing@[i] < *#[trigger] listing@[j],
    {
        let mut listing: Vec<&u32> = Vec::new();
        let ghost mut order = Seq::<u32>::empty();
        proof {
            let keys = self.states.keys().remaining();
            lemma_enumerates(keys, self@.states);
            assert forall|i: int, j: int| 0 <= i < j < keys.len() implies *#[trigger] keys[i]
                < *#[trigger] keys[j] by {
                assert(OrdSpec::cmp_spec(&keys[i], &keys[j]) is Less);
            }
        }
        for id in it: self.states.keys()
            invariant
                enumerates(it.seq(), self@.states),
                it.seq().len() == self@.states.len(),
                forall|i: int, j: int|
                    0 <= i < j < it.seq().len() ==> *#[trigger] it.seq()[i] < *#[trigger] it.seq()[j],
                listing@.len() == it.index(),
                order.len() == it.index(),
                forall|i: int|
                    #![trigger order[i]]
                    #![trigger it.seq()[i]]
                    0 <= i < it.index() ==> order[i] == *it.seq()[i],
                forall|i: int| 0 <= i < it.index() ==> *#[trigger] listing@[i] == order[i],
        {
            proof {
                order = order.push(*id);
            }
            listing.push(id);
        }
        proof {
            assert(order.to_set() =~= self@.states);
            assert(listing@.unref() =~= order);
        }
        listing
    }

    /// Returns a sorted iterator of the states of the automaton.
    pub fn states_iter(&self) -> (keys: Keys<'_, u32, State>)
        requires
            self.wf(),
        ensures
            enumerates(keys.remaining(), self@.states),
            keys.remaining().len() == self@.states.len(),
            forall|i: int, j: int|
                0 <= i < j < keys.remaining().len() ==> *#[trigger] keys.remaining()[i]
                    < *#[trigger] keys.remaining()[j],
    {
        let keys = self.states.keys();
        proof {
            let order = keys.remaining();
            lemma_enumerates(order, self@.states);
            assert forall|i: int, j: int| 0 <= i < j < order.len() implies *#[trigger] order[i]
                < *#[trigger] order[j] by {
                assert(OrdSpec::cmp_spec(&order[i], &order[j]) is Less);
            }
        }
        keys
    }

    /// The transitions that leave `from`, once each.
    pub fn transitions_from(&self, from: u32) -> (listing: Vec<&FiniteAutomatonTransition>)
        requires
            self.wf(),
        ensures
            lists(listing@, leaving(self@.transitions, from)),
            listing@.len() == leaving(self@.transitions, from).len(),
    {
        self.transitions.from(from)
    }

    /// The transitions that enter `to`, once each.
    pub fn transitions_to(&self, to: u32) -> (listing: Vec<&FiniteAutomatonTransition>)
        requires
            self.wf(),
        ensures
            lists(listing@, entering(self@.transitions, to)),
            listing@.len() == entering(self@.transitions, to).len(),
    {
        self.transitions.to(to)
    }

    /// The transitions that leave or enter `state`, once each.
    pub fn transitions_with(&self, state: u32) -> (listing: Vec<&FiniteAutomatonTransition>)
        requires
            self.wf(),
        ensures
            lists(listing@, incident(self@.transitions, state)),
            listing@.len() == incident(self@.transitions, state).len(),
    {
        self.transitions.with(state)
    }

    /// Every transition of the graph, once each.
    pub fn transitions(&self) -> (listing: Vec<&FiniteAutomatonTransition>)
        requires
            self.wf(),
        ensures
            lists(listing@, self@.transitions),
            listing@.len() == self@.transitions.len(),
    {
        self.transitions.transitions()
    }

    /// Whether some transition leads from `state0` to `state1` and some
    /// transition leads back.
    pub fn states_have_loop(&self, state0: u32, state1: u32) -> (mutual: bool)
        requires
            self.wf(),
        ensures
            mutual == mutually_linked(self@.transitions, state0, state1),
    {
        self.transitions.states_have_loop(state0, state1)
    }

    /// The number of transitions of the graph.
    pub fn transition_count(&self) -> (count: usize)
        requires
            self.wf(),
        ensures
            count == self@.transitions.len(),
    {
        self.transitions.len()
    }

    /// Adds `transition` if both of its endpoints are registered states;
    /// otherwise, or if an identical transition is already there, nothing
    /// changes.
    pub fn add_transition(&mut self, transition: FiniteAutomatonTransition)
        requires
            old(self).wf(),
            old(self)@.states.contains(transition.source()) && old(self)@.states.contains(
                transition.target(),
            ) && !old(self)@.transitions.contains(transition) ==> old(self)@.transitions.len()
                < SLOT_LIMIT,
        ensures
            final(self).wf(),
            final(self)@ == old(self)@.with_transition(transition),
    {
        if self.states.contains_key(&transition.from()) && self.states.contains_key(
            &transition.to(),
        ) {
            self.transitions.add_transition(transition);
        }
    }

    /// Removes the transition equal to `transition`, if the graph has one.
    pub fn remove_transition(&mut self, transition: FiniteAutomatonTransition)
        requires
            old(self).wf(),
        ensures
            final(self).wf(),
            final(self)@ == old(self)@.without_transition(transition),
    {
        if self.states.contains_key(&transition.from()) && self.states.contains_key(
            &transition.to(),
        ) {
            self.transitions.remove_transition(transition);
        } else {
            proof {
                self.lemma_wf();
                assert(self@.transitions.remove(transition) =~= self@.transitions);
            }
        }
    }

    /// Whether an initial state is set.
    pub fn has_initial(&self) -> (set: bool)
        ensures
            set == self@.initial.is_some(),
    {
        self.initial_state.is_some()
    }

    /// The initial state, if one is set.
    pub fn initial(&self) -> (state: Option<u32>)
        ensures
            state == self@.initial,
    {
        self.initial_state
    }

    /// Makes `state` the initial state if it is registered; otherwise
    /// nothing changes.
    pub fn set_initial(&mut self, state: u32)
        requires
            old(self).wf(),
        ensures
            final(self).wf(),
            final(self)@ == old(self)@.with_initial(state),
    {
        if self.states.contains_key(&state) {
            self.initial_state = Some(state);
        }
    }

    /// Leaves the automaton without an initial state.
    pub fn remove_initial(&mut self)
        requires
            old(self).wf(),
        ensures
            final(self).wf(),
            final(self)@ == old(self)@.without_initial(),
    {
        self.initial_state = None;
    }

    /// Whether `state` is marked as final.
    pub fn is_final(&self, state: u32) -> (marked: bool)
        ensures
            marked == self@.finals.contains(state),
    {
        self.final_states.contains(&state)
    }

    /// Marks `state` as final when `value` holds and takes the mark away
    /// otherwise. The mark is kept whether or not `state` is registered.
    pub fn set_final(&mut self, state: u32, value: bool)
        requires
            old(self).wf(),
        ensures
            final(self).wf(),
            final(self)@ == old(self)@.with_final(state, value),
    {
        if value {
            self.final_states.insert(state);
        } else {
            self.final_states.remove(&state);
        }
    }
}

/// Identifiers are reused: once the state `removed` is gone, the next new
/// state gets its identifier again and no other, provided that every
/// smaller identifier is in use.
pub proof fn lemma_removed_id_is_reused(graph: AutomatonView, removed: u32)
    requires
        forall|smaller: u32| smaller < removed ==> graph.states.contains(smaller),
    ensures
        forall|id: u32|
            is_next_state_id(graph.without_state(removed).states, id) <==> id == removed,
{
    let left = graph.without_state(removed).states;
    assert(is_next_state_id(left, removed)) by {
        assert forall|smaller: u32| smaller < removed implies left.contains(smaller) by {
            assert(graph.states.contains(smaller));
        }
    }
    assert forall|id: u32| is_next_state_id(left, id) implies id == removed by {
        if id < removed {
            assert(graph.states.contains(id));
        }
        if removed < id {
            assert(left.contains(removed));
        }
    }
}

/// Adding a transition a second time changes nothing: the graph is the same
/// as after the first time, and as many transitions leave each state.
pub proof fn lemma_second_add_changes_nothing(
    graph: AutomatonView,
    added: FiniteAutomatonTransition,
    state: u32,
)
    ensures
        graph.with_transition(added).with_transition(added) == graph.with_transition(added),
        leaving(graph.with_transition(added).with_transition(added).transitions, state).len()
            == leaving(graph.with_transition(added).transitions, state).len(),
{
    assert(graph.transitions.insert(added).insert(added) =~= graph.transitions.insert(added));
}

/// Removing a state leaves no transition that has it as an endpoint: none
/// leaves it, none enters it, and the transitions incident to it are none.
pub proof fn lemma_removed_state_has_no_transitions(graph: AutomatonView, state: u32)
    ensures
        forall|t: FiniteAutomatonTransition| #[trigger]
            graph.without_state(state).transitions.contains(t) ==> t.source() != state
                && t.target() != state,
        incident(graph.without_state(state).transitions, state)
            == Set::<FiniteAutomatonTransition>::empty(),
        leaving(graph.without_state(state).transitions, state)
            == Set::<FiniteAutomatonTransition>::empty(),
        entering(graph.without_state(state).transitions, state)
            == Set::<FiniteAutomatonTransition>::empty(),
{
    let left = graph.without_state(state).transitions;
    assert(incident(left, state) =~= Set::<FiniteAutomatonTransition>::empty());
    assert(leaving(left, state) =~= Set::<FiniteAutomatonTransition>::empty());
    assert(entering(left, state) =~= Set::<FiniteAutomatonTransition>::empty());
}

} // verus!
