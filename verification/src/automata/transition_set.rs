//! The transition index: the transition records, and for each registered
//! state the handles of the records that leave it and that enter it.

use vstd::prelude::*;

use std::collections::hash_map::Entry;
use std::collections::{HashMap, HashSet};
use vstd::std_specs::iter::IteratorSpec;

use crate::automata::collections::{
    enumerates, lemma_enumerates, lemma_injective_values_len, lemma_values_insert,
    lemma_values_remove, lists,
};
use crate::automata::finite_automaton::finite_automaton_transition::FiniteAutomatonTransition;
use crate::automata::index_model::{
    buckets, consistent, filed_under, lemma_consistent_insert, lemma_consistent_remove,
    lemma_consistent_unregister, lemma_listing, stored_under, unfiled,
};
use crate::automata::slots::{handles_of, slot_records, TransitionSlots, SLOT_LIMIT};
use crate::automata::transition::Transition;

verus! {

broadcast use vstd::std_specs::hash::group_hash_axioms;

/// What a transition index holds: the registered states and the transitions.
pub struct TransitionSetView {
    /// The registered states.
    pub states: Set<u32>,
    /// The transitions, each of which joins two registered states.
    pub transitions: Set<FiniteAutomatonTransition>,
}

/// The transitions of `transitions` that leave `state`.
pub open spec fn leaving(
    transitions: Set<FiniteAutomatonTransition>,
    state: u32,
) -> Set<FiniteAutomatonTransition> {
    transitions.filter(|t: FiniteAutomatonTransition| t.source() == state)
}

/// The transitions of `transitions` that enter `state`.
pub open spec fn entering(
    transitions: Set<FiniteAutomatonTransition>,
    state: u32,
) -> Set<FiniteAutomatonTransition> {
    transitions.filter(|t: FiniteAutomatonTransition| t.target() == state)
}

/// The transitions of `transitions` that leave or enter `state`.
pub open spec fn incident(
    transitions: Set<FiniteAutomatonTransition>,
    state: u32,
) -> Set<FiniteAutomatonTransition> {
    transitions.filter(|t: FiniteAutomatonTransition| t.source() == state || t.target() == state)
}

/// The transitions of `transitions` that neither leave nor enter `state`.
pub open spec fn clear_of(
    transitions: Set<FiniteAutomatonTransition>,
    state: u32,
) -> Set<FiniteAutomatonTransition> {
    transitions.filter(|t: FiniteAutomatonTransition| t.source() != state && t.target() != state)
}

/// Whether some transition of `transitions` leads from `a` to `b`.
pub open spec fn linked(transitions: Set<FiniteAutomatonTransition>, a: u32, b: u32) -> bool {
    exists|t: FiniteAutomatonTransition|
        transitions.contains(t) && t.source() == a && t.target() == b
}

/// Whether some transition leads from `a` to `b` and some transition leads
/// from `b` to `a`.
pub open spec fn mutually_linked(
    transitions: Set<FiniteAutomatonTransition>,
    a: u32,
    b: u32,
) -> bool {
    linked(transitions, a, b) && linked(transitions, b, a)
}

/// A collection of transitions with auxiliary maps.
pub struct TransitionSet {
    transitions: TransitionSlots,
    /// Handles of the transitions coming from a given state.
    transitions_from: HashMap<u32, HashSet<u64>>,
    /// Handles of the transitions going into a given state.
    transitions_to: HashMap<u32, HashSet<u64>>,
}

impl View for TransitionSet {
    type V = TransitionSetView;

    closed spec fn view(&self) -> TransitionSetView {
        TransitionSetView {
            states: self.from_index().dom(),
            transitions: self.records().values(),
        }
    }
}

impl Default for TransitionSet {
    /// An index with no state and no transition.
    fn default() -> (made: Self)
        ensures
            made.wf(),
            made@.states == Set::<u32>::empty(),
            made@.transitions == Set::<FiniteAutomatonTransition>::empty(),
    {
        let made = TransitionSet {
            transitions: TransitionSlots::new(),
            transitions_from: HashMap::new(),
            transitions_to: HashMap::new(),
        };
        assert(made.records().values() =~= Set::<FiniteAutomatonTransition>::empty());
        assert(made.from_index().dom() =~= Set::<u32>::empty());
        assert(made.to_index().dom() =~= Set::<u32>::empty());
        made
    }
}

impl TransitionSet {
    /// The stored records, each under its handle.
    closed spec fn records(&self) -> Map<u64, FiniteAutomatonTransition> {
        slot_records(self.transitions)
    }

    /// The handles filed under each state as leaving it.
    closed spec fn from_index(&self) -> Map<u32, Set<u64>> {
        buckets(self.transitions_from@)
    }

    /// The handles filed under each state as entering it.
    closed spec fn to_index(&self) -> Map<u32, Set<u64>> {
        buckets(self.transitions_to@)
    }

    /// The invariant of the index: see [`consistent`].
    pub closed spec fn wf(&self) -> bool {
        consistent(self.records(), self.from_index(), self.to_index())
    }

    /// In a well-formed index the sets of states and of transitions are
    /// finite, and every transition joins two registered states.
    pub proof fn lemma_wf(&self)
        requires
            self.wf(),
        ensures
            self@.states.finite(),
            self@.transitions.finite(),
            forall|t: FiniteAutomatonTransition| #[trigger]
                self@.transitions.contains(t) ==> self@.states.contains(t.source())
                    && self@.states.contains(t.target()),
    {
        self.lemma_count();
        assert(self.from_index().dom() =~= self.transitions_from@.dom());
        assert forall|t: FiniteAutomatonTransition| #[trigger]
            self@.transitions.contains(t) implies self@.states.contains(t.source())
            && self@.states.contains(t.target()) by {
            let h = choose|h: u64| self.records().contains_key(h) && self.records()[h] == t;
            assert(self.from_index().contains_key(t.source()));
            assert(self.to_index().contains_key(t.target()));
        }
    }

    /// There are as many transitions as records, since no transition is stored twice.
    proof fn lemma_count(&self)
        requires
            self.wf(),
        ensures
            self@.transitions.finite(),
            self@.transitions.len() == self.records().dom().len(),
    {
        lemma_injective_values_len(self.records());
    }

    /// Adds `transition`, unless an identical transition is already held.
    ///
    /// Both endpoints must be registered, and there must be room for one
    /// more record.
    pub fn add_transition(&mut self, transition: FiniteAutomatonTransition)
        requires
            old(self).wf(),
            old(self)@.states.contains(transition.source()),
            old(self)@.states.contains(transition.target()),
            old(self)@.transitions.contains(transition) || old(self)@.transitions.len()
                < SLOT_LIMIT,
        ensures
            final(self).wf(),
            final(self)@.states == old(self)@.states,
            final(self)@.transitions == old(self)@.transitions.insert(transition),
    {
        if self.has_transition(&transition) {
            assert(self@.transitions.insert(transition) =~= self@.transitions);
            return;
        }
        proof {
            self.lemma_count();
        }
        let (from, to) = (transition.from(), transition.to());
        let key = self.transitions.insert(transition);
        self.transitions_from.entry(from).or_insert(HashSet::new()).insert(key);
        self.transitions_to.entry(to).or_insert(HashSet::new()).insert(key);
        proof {
            let before = old(self);
            assert(self.records() == before.records().insert(key, transition));
            assert(self.from_index() =~= before.from_index().insert(
                from,
                before.from_index()[from].insert(key),
            ));
            assert(self.to_index() =~= before.to_index().insert(
                to,
                before.to_index()[to].insert(key),
            ));
            lemma_values_insert(before.records(), key, transition);
            lemma_consistent_insert(
                before.records(),
                before.from_index(),
                before.to_index(),
                key,
                transition,
            );
        }
    }

    /// Removes the transition equal to `transition`, if one is held.
    pub fn remove_transition(&mut self, transition: FiniteAutomatonTransition)
        requires
            old(self).wf(),
        ensures
            final(self).wf(),
            final(self)@.states == old(self)@.states,
            final(self)@.transitions == old(self)@.transitions.remove(transition),
    {
        if let Some(key) = self.find(&transition) {
            self.transitions.remove(key);
            scrub(&mut self.transitions_from, transition.from(), key);
            scrub(&mut self.transitions_to, transition.to(), key);
            proof {
                let before = old(self);
                assert(self.records() == before.records().remove(key));
                assert(self.from_index() =~= before.from_index().insert(
                    transition.source(),
                    before.from_index()[transition.source()].remove(key),
                ));
                assert(self.to_index() =~= before.to_index().insert(
                    transition.target(),
                    before.to_index()[transition.target()].remove(key),
                ));
                lemma_values_remove(before.records(), key);
                lemma_consistent_remove(
                    before.records(),
                    before.from_index(),
                    before.to_index(),
                    key,
                );
            }
        } else {
            assert(self@.transitions.remove(transition) =~= self@.transitions);
        }
    }

    /// Ensures that `state` has an entry in both indices. Registering a state
    /// a second time changes nothing.
    pub fn register_state(&mut self, state: u32)
        requires
            old(self).wf(),
        ensures
            final(self).wf(),
            final(self)@.states == old(self)@.states.insert(state),
            final(self)@.transitions == old(self)@.transitions,
    {
        self.transitions_from.entry(state).or_insert(HashSet::new());
        self.transitions_to.entry(state).or_insert(HashSet::new());
        assert(self.from_index() =~= if old(self).from_index().contains_key(state) {
            old(self).from_index()
        } else {
            old(self).from_index().insert(state, Set::<u64>::empty())
        });
        assert(self.to_index() =~= if old(self).to_index().contains_key(state) {
            old(self).to_index()
        } else {
            old(self).to_index().insert(state, Set::<u64>::empty())
        });
    }

    /// Removes `state` from both indices, together with every transition
    /// that leaves or enters it.
    pub fn unregister_state(&mut self, state: u32)
        requires
            old(self).wf(),
        ensures
            final(self).wf(),
            final(self)@.states == old(self)@.states.remove(state),
            final(self)@.transitions == clear_of(old(self)@.transitions, state),
    {
        let ghost records = self.records();
        let ghost from = self.from_index();
        let ghost to = self.to_index();

        // Unregister the state in the auxiliary maps, keeping what was filed under it
        let transitions_from = match self.transitions_from.remove(&state) {
            Some(filed) => filed,
            None => HashSet::new(),
        };
        let transitions_to = match self.transitions_to.remove(&state) {
            Some(filed) => filed,
            None => HashSet::new(),
        };
        assert(self.from_index() =~= from.remove(state));
        assert(self.to_index() =~= to.remove(state));
        assert(transitions_from@ == filed_under(from, state));
        assert(transitions_to@ == filed_under(to, state));

        // Follow the maps and unregister the entry in the opposite direction
        let ghost mut seen = Set::<u64>::empty();
        proof {
            lemma_enumerates(transitions_from.iter().remaining(), transitions_from@);
            assert(self.to_index() =~~= unfiled(to.remove(state), records, seen, true));
        }
        for key in it: transitions_from.iter()
            invariant
                consistent(records, from, to),
                transitions_from@ == filed_under(from, state),
                enumerates(it.seq(), transitions_from@),
                forall|i: int| 0 <= i < it.index() ==> seen.contains(*#[trigger] it.seq()[i]),
                seen.subset_of(transitions_from@),
                self.records() == records,
                self.from_index() == from.remove(state),
                self.to_index() == unfiled(to.remove(state), records, seen, true),
        {
            assert(transitions_from@.contains(*key));
            assert(from[state].contains(*key));
            if let Some(transition) = self.transitions.get(*key) {
                scrub(&mut self.transitions_to, transition.to(), *key);
            }
            proof {
                assert(self.to_index() =~~= unfiled(
                    to.remove(state),
                    records,
                    seen.insert(*key),
                    true,
                ));
                seen = seen.insert(*key);
            }
        }
        assert(seen =~= transitions_from@);

        let ghost mut seen = Set::<u64>::empty();
        proof {
            lemma_enumerates(transitions_to.iter().remaining(), transitions_to@);
            assert(self.from_index() =~~= unfiled(from.remove(state), records, seen, false));
        }
        for key in it: transitions_to.iter()
            invariant
                consistent(records, from, to),
                transitions_to@ == filed_under(to, state),
                enumerates(it.seq(), transitions_to@),
                forall|i: int| 0 <= i < it.index() ==> seen.contains(*#[trigger] it.seq()[i]),
                seen.subset_of(transitions_to@),
                self.records() == records,
                self.from_index() == unfiled(from.remove(state), records, seen, false),
                self.to_index() == unfiled(
                    to.remove(state),
                    records,
                    filed_under(from, state),
                    true,
                ),
        {
            assert(transitions_to@.contains(*key));
            assert(to[state].contains(*key));
            if let Some(transition) = self.transitions.get(*key) {
                scrub(&mut self.transitions_from, transition.from(), *key);
            }
            proof {
                assert(self.from_index() =~~= unfiled(
                    from.remove(state),
                    records,
                    seen.insert(*key),
                    false,
                ));
                seen = seen.insert(*key);
            }
        }
        assert(seen =~= transitions_to@);

        // Remove the actual transitions
        let mut doomed = HashSet::new();
        gather(&mut doomed, &transitions_from);
        gather(&mut doomed, &transitions_to);
        assert(doomed@ =~= filed_under(from, state).union(filed_under(to, state)));
        let ghost mut seen = Set::<u64>::empty();
        proof {
            lemma_enumerates(doomed.iter().remaining(), doomed@);
            assert(self.records() =~= records.remove_keys(seen));
        }
        for key in it: doomed.iter()
            invariant
                consistent(records, from, to),
                doomed@ == filed_under(from, state).union(filed_under(to, state)),
                enumerates(it.seq(), doomed@),
                forall|i: int| 0 <= i < it.index() ==> seen.contains(*#[trigger] it.seq()[i]),
                seen.subset_of(doomed@),
                self.records() == records.remove_keys(seen),
                self.from_index() == unfiled(
                    from.remove(state),
                    records,
                    filed_under(to, state),
                    false,
                ),
                self.to_index() == unfiled(
                    to.remove(state),
                    records,
                    filed_under(from, state),
                    true,
                ),
        {
            assert(doomed@.contains(*key));
            assert(from[state].contains(*key) || to[state].contains(*key));
            if self.transitions.contains_key(*key) {
                self.transitions.remove(*key);
            }
            proof {
                assert(self.records() =~= records.remove_keys(seen.insert(*key)));
                seen = seen.insert(*key);
            }
        }
        proof {
            assert(seen =~= doomed@);
            lemma_consistent_unregister(records, from, to, state);
        }
    }

    /// Whether some transition leads from `state0` to `state1` and some
    /// transition leads back.
    pub fn states_have_loop(&self, state0: u32, state1: u32) -> (mutual: bool)
        requires
            self.wf(),
        ensures
            mutual == mutually_linked(self@.transitions, state0, state1),
    {
        let leaving0 = self.from(state0);
        let mut forward = false;
        for i in 0..leaving0.len()
            invariant
                forward == exists|j: int| 0 <= j < i && (#[trigger] leaving0@[j]).target() == state1,
        {
            if leaving0[i].to() == state1 {
                forward = true;
            }
        }
        let entering0 = self.to(state0);
        let mut backward = false;
        for i in 0..entering0.len()
            invariant
                backward == exists|j: int|
                    0 <= j < i && (#[trigger] entering0@[j]).source() == state1,
        {
            if entering0[i].from() == state1 {
                backward = true;
            }
        }
        proof {
            let all = self@.transitions;
            if linked(all, state0, state1) {
                let t = choose|t: FiniteAutomatonTransition|
                    all.contains(t) && t.source() == state0 && t.target() == state1;
                assert(leaving(all, state0).contains(t));
                assert(leaving0@.unref().contains(t));
                let j = choose|j: int| 0 <= j < leaving0@.unref().len() && leaving0@.unref()[j] == t;
                assert(leaving0@[j].target() == state1);
            }
            if forward {
                let j = choose|j: int| 0 <= j < leaving0@.len() && leaving0@[j].target() == state1;
                assert(leaving0@.unref()[j] == *leaving0@[j]);
                assert(leaving0@.unref().to_set().contains(leaving0@.unref()[j]));
                assert(leaving(all, state0).contains(*leaving0@[j]));
            }
            if linked(all, state1, state0) {
                let t = choose|t: FiniteAutomatonTransition|
                    all.contains(t) && t.source() == state1 && t.target() == state0;
                assert(entering(all, state0).contains(t));
                assert(entering0@.unref().contains(t));
                let j = choose|j: int|
                    0 <= j < entering0@.unref().len() && entering0@.unref()[j] == t;
                assert(entering0@[j].source() == state1);
            }
            if backward {
                let j = choose|j: int|
                    0 <= j < entering0@.len() && entering0@[j].source() == state1;
                assert(entering0@.unref()[j] == *entering0@[j]);
                assert(entering0@.unref().to_set().contains(entering0@.unref()[j]));
                assert(entering(all, state0).contains(*entering0@[j]));
            }
        }
        forward && backward
    }

    /// Every transition held, once each.
    pub fn transitions(&self) -> (listing: Vec<&FiniteAutomatonTransition>)
        requires
            self.wf(),
        ensures
            lists(listing@, self@.transitions),
            listing@.len() == self@.transitions.len(),
    {
        let entries = self.transitions.entries();
        let mut listing: Vec<&FiniteAutomatonTransition> = Vec::new();
        for i in 0..entries.len()
            invariant
                listing@.len() == i,
                forall|j: int| 0 <= j < i ==> *#[trigger] listing@[j] == *entries@[j].1,
        {
            listing.push(entries[i].1);
        }
        proof {
            let records = self.records();
            let order = handles_of(entries@);
            order.unique_seq_to_set();
            assert forall|i: int| 0 <= i < order.len() implies records.contains_key(
                #[trigger] order[i],
            ) by {
                assert(order.to_set().contains(order[i]));
            }
            lemma_listing(records, order, listing@.unref());
            assert(stored_under(records, records.dom()) =~= self@.transitions);
            self.lemma_count();
        }
        listing
    }

    /// The number of transitions held.
    pub fn len(&self) -> (count: usize)
        requires
            self.wf(),
        ensures
            count == self@.transitions.len(),
    {
        proof {
            self.lemma_count();
        }
        self.transitions.len()
    }

    /// The transitions that leave `from`, once each; none if `from` is not
    /// registered.
    pub fn from(&self, from: u32) -> (listing: Vec<&FiniteAutomatonTransition>)
        requires
            self.wf(),
        ensures
            lists(listing@, leaving(self@.transitions, from)),
            listing@.len() == leaving(self@.transitions, from).len(),
    {
        match self.keys_from(from) {
            Some(keys) => {
                proof {
                    self.lemma_buckets(from);
                }
                let listing = self.records_of(keys);
                proof {
                    listing@.unref().unique_seq_to_set();
                }
                listing
            },
            None => {
                proof {
                    self.lemma_unregistered(from);
                }
                let listing: Vec<&FiniteAutomatonTransition> = Vec::new();
                assert(listing@.unref().to_set() =~= Set::<FiniteAutomatonTransition>::empty());
                listing
            },
        }
    }

    /// The transitions that enter `to`, once each; none if `to` is not
    /// registered.
    pub fn to(&self, to: u32) -> (listing: Vec<&FiniteAutomatonTransition>)
        requires
            self.wf(),
        ensures
            lists(listing@, entering(self@.transitions, to)),
            listing@.len() == entering(self@.transitions, to).len(),
    {
        match self.keys_to(to) {
            Some(keys) => {
                proof {
                    self.lemma_buckets(to);
                }
                let listing = self.records_of(keys);
                proof {
                    listing@.unref().unique_seq_to_set();
                }
                listing
            },
            None => {
                proof {
                    self.lemma_unregistered(to);
                }
                let listing: Vec<&FiniteAutomatonTransition> = Vec::new();
                assert(listing@.unref().to_set() =~= Set::<FiniteAutomatonTransition>::empty());
                listing
            },
        }
    }

    /// The transitions that leave or enter `state`, once each; none if
    /// `state` is not registered.
    pub fn with(&self, state: u32) -> (listing: Vec<&FiniteAutomatonTransition>)
        requires
            self.wf(),
        ensures
            lists(listing@, incident(self@.transitions, state)),
            listing@.len() == incident(self@.transitions, state).len(),
    {
        let keys = self.keys_with(state);
        proof {
            if self@.states.contains(state) {
                self.lemma_buckets(state);
            } else {
                self.lemma_unregistered(state);
                assert(stored_under(self.records(), keys@)
                    =~= Set::<FiniteAutomatonTransition>::empty());
            }
        }
        let listing = self.records_of(&keys);
        proof {
            listing@.unref().unique_seq_to_set();
        }
        listing
    }

    /// The handles filed under `from` as leaving it, if `from` is registered.
    fn keys_from(&self, from: u32) -> (keys: Option<&HashSet<u64>>)
        requires
            self.wf(),
        ensures
            match keys {
                Some(set) => self@.states.contains(from) && set@ == self.from_index()[from],
                None => !self@.states.contains(from),
            },
    {
        self.transitions_from.get(&from)
    }

    /// The handles filed under `to` as entering it, if `to` is registered.
    fn keys_to(&self, to: u32) -> (keys: Option<&HashSet<u64>>)
        requires
            self.wf(),
        ensures
            match keys {
                Some(set) => self@.states.contains(to) && set@ == self.to_index()[to],
                None => !self@.states.contains(to),
            },
    {
        assert(self.to_index().dom().contains(to) == self.transitions_to@.contains_key(to));
        assert(self.from_index().dom().contains(to) == self.transitions_from@.contains_key(to));
        self.transitions_to.get(&to)
    }

    /// The handles filed under `state` in either index.
    fn keys_with(&self, state: u32) -> (keys: HashSet<u64>)
        requires
            self.wf(),
        ensures
            keys@ == if self@.states.contains(state) {
                self.to_index()[state].union(self.from_index()[state])
            } else {
                Set::<u64>::empty()
            },
    {
        let mut keys = HashSet::new();
        if let Some(set_to) = self.keys_to(state) {
            gather(&mut keys, set_to);
        }
        if let Some(set_from) = self.keys_from(state) {
            gather(&mut keys, set_from);
        }
        assert(self@.states.contains(state) ==> keys@ =~= self.to_index()[state].union(
            self.from_index()[state],
        ));
        keys
    }

    /// Whether `transition` is held, looked up among the records filed as
    /// leaving its source state.
    fn has_transition(&self, transition: &FiniteAutomatonTransition) -> (found: bool)
        requires
            self.wf(),
        ensures
            found == self@.transitions.contains(*transition),
    {
        if let Some(set_from) = self.transitions_from.get(&transition.from()) {
            let mut found = false;
            let ghost mut seen = Set::<u64>::empty();
            proof {
                lemma_enumerates(set_from.iter().remaining(), set_from@);
            }
            for key in it: set_from.iter()
                invariant
                    self.wf(),
                    self.from_index().contains_key(transition.source()),
                    self.from_index()[transition.source()] == set_from@,
                    enumerates(it.seq(), set_from@),
                    forall|i: int| 0 <= i < it.index() ==> seen.contains(*#[trigger] it.seq()[i]),
                    seen.subset_of(set_from@),
                    found == exists|h: u64|
                        seen.contains(h) && #[trigger] self.records()[h] == *transition,
            {
                assert(set_from@.contains(*key));
                proof {
                    seen = seen.insert(*key);
                }
                if let Some(record) = self.transitions.get(*key) {
                    if *record == *transition {
                        found = true;
                    }
                }
            }
            assert(seen =~= set_from@);
            found
        } else {
            false
        }
    }

    /// The handle under which `transition` is stored, found by comparing it
    /// with every record.
    fn find(&self, transition: &FiniteAutomatonTransition) -> (found: Option<u64>)
        requires
            self.wf(),
        ensures
            match found {
                Some(handle) => self.records().contains_key(handle) && self.records()[handle]
                    == *transition,
                None => !self@.transitions.contains(*transition),
            },
    {
        let entries = self.transitions.entries();
        for i in 0..entries.len()
            invariant
                handles_of(entries@).to_set() == self.records().dom(),
                forall|j: int|
                    0 <= j < entries@.len() ==> *(#[trigger] entries@[j]).1
                        == self.records()[entries@[j].0],
                forall|j: int| 0 <= j < i ==> *(#[trigger] entries@[j]).1 != *transition,
        {
            if *entries[i].1 == *transition {
                assert(handles_of(entries@)[i as int] == entries@[i as int].0);
                assert(handles_of(entries@).to_set().contains(entries@[i as int].0));
                return Some(entries[i].0);
            }
        }
        proof {
            if self@.transitions.contains(*transition) {
                let h = choose|h: u64|
                    self.records().contains_key(h) && self.records()[h] == *transition;
                assert(handles_of(entries@).to_set().contains(h));
                let i = choose|i: int|
                    0 <= i < handles_of(entries@).len() && handles_of(entries@)[i] == h;
                assert(*entries@[i].1 == *transition);
            }
        }
        None
    }

    /// The records stored under `handles`, in the order in which the set
    /// hands its elements out.
    fn records_of<'a>(&'a self, handles: &HashSet<u64>) -> (listing: Vec<
        &'a FiniteAutomatonTransition,
    >)
        requires
            self.wf(),
            handles@.subset_of(self.records().dom()),
        ensures
            lists(listing@, stored_under(self.records(), handles@)),
            listing@.len() == handles@.len(),
    {
        let mut listing: Vec<&'a FiniteAutomatonTransition> = Vec::new();
        let ghost mut order = Seq::<u64>::empty();
        proof {
            lemma_enumerates(handles.iter().remaining(), handles@);
        }
        for handle in it: handles.iter()
            invariant
                self.wf(),
                handles@.subset_of(self.records().dom()),
                it.seq().len() == handles@.len(),
                enumerates(it.seq(), handles@),
                order.len() == it.index(),
                listing@.len() == it.index(),
                forall|i: int|
                    #![trigger order[i]]
                    #![trigger it.seq()[i]]
                    0 <= i < it.index() ==> order[i] == *it.seq()[i],
                forall|i: int|
                    0 <= i < it.index() ==> *#[trigger] listing@[i] == self.records()[order[i]],
        {
            proof {
                order = order.push(*handle);
            }
            match self.transitions.get(*handle) {
                Some(record) => {
                    listing.push(record);
                },
                None => {},
            }
        }
        proof {
            assert(order.no_duplicates());
            assert(order.to_set() =~= handles@);
            lemma_listing(self.records(), order, listing@.unref());
        }
        listing
    }

    /// The records filed under a registered state as leaving it are the
    /// transitions that leave it, and likewise for those that enter it.
    proof fn lemma_buckets(&self, state: u32)
        requires
            self.wf(),
            self@.states.contains(state),
        ensures
            self.from_index()[state].subset_of(self.records().dom()),
            self.to_index()[state].subset_of(self.records().dom()),
            stored_under(self.records(), self.from_index()[state]) == leaving(
                self@.transitions,
                state,
            ),
            stored_under(self.records(), self.to_index()[state]) == entering(
                self@.transitions,
                state,
            ),
            stored_under(
                self.records(),
                self.to_index()[state].union(self.from_index()[state]),
            ) == incident(self@.transitions, state),
    {
        let records = self.records();
        let from = self.from_index()[state];
        let to = self.to_index()[state];
        assert(self.from_index().contains_key(state));
        assert(self.to_index().contains_key(state));
        assert forall|t: FiniteAutomatonTransition|
            leaving(self@.transitions, state).contains(t) implies stored_under(
            records,
            from,
        ).contains(t) by {
            let h = choose|h: u64| records.contains_key(h) && records[h] == t;
            assert(from.contains(h));
        }
        assert forall|t: FiniteAutomatonTransition|
            entering(self@.transitions, state).contains(t) implies stored_under(
            records,
            to,
        ).contains(t) by {
            let h = choose|h: u64| records.contains_key(h) && records[h] == t;
            assert(to.contains(h));
        }
        assert forall|t: FiniteAutomatonTransition|
            incident(self@.transitions, state).contains(t) implies stored_under(
            records,
            to.union(from),
        ).contains(t) by {
            let h = choose|h: u64| records.contains_key(h) && records[h] == t;
            assert(to.union(from).contains(h));
        }
        assert(stored_under(records, from) =~= leaving(self@.transitions, state));
        assert(stored_under(records, to) =~= entering(self@.transitions, state));
        assert(stored_under(records, to.union(from)) =~= incident(self@.transitions, state));
    }

    /// No transition leaves or enters a state that is not registered.
    proof fn lemma_unregistered(&self, state: u32)
        requires
            self.wf(),
            !self@.states.contains(state),
        ensures
            leaving(self@.transitions, state) == Set::<FiniteAutomatonTransition>::empty(),
            entering(self@.transitions, state) == Set::<FiniteAutomatonTransition>::empty(),
            incident(self@.transitions, state) == Set::<FiniteAutomatonTransition>::empty(),
    {
        let records = self.records();
        assert forall|t: FiniteAutomatonTransition|
            self@.transitions.contains(t) implies t.source() != state && t.target() != state by {
            let h = choose|h: u64| records.contains_key(h) && records[h] == t;
            assert(self.from_index().contains_key(t.source()));
            assert(self.to_index().contains_key(t.target()));
        }
        assert(leaving(self@.transitions, state) =~= Set::<FiniteAutomatonTransition>::empty());
        assert(entering(self@.transitions, state) =~= Set::<FiniteAutomatonTransition>::empty());
        assert(incident(self@.transitions, state) =~= Set::<FiniteAutomatonTransition>::empty());
    }
}

/// Takes `key` out of the handles filed under `state`, if `state` has an entry.
fn scrub(index: &mut HashMap<u32, HashSet<u64>>, state: u32, key: u64)
    ensures
        buckets(final(index)@) == if buckets(old(index)@).contains_key(state) {
            buckets(old(index)@).insert(state, buckets(old(index)@)[state].remove(key))
        } else {
            buckets(old(index)@)
        },
{
    match index.entry(state) {
        Entry::Occupied(mut bucket) => {
            bucket.get_mut().remove(&key);
        },
        Entry::Vacant(_) => {},
    }
    assert(buckets(index@) =~= if buckets(old(index)@).contains_key(state) {
        buckets(old(index)@).insert(state, buckets(old(index)@)[state].remove(key))
    } else {
        buckets(old(index)@)
    });
}

/// Puts every handle of `source` into `target`.
fn gather(target: &mut HashSet<u64>, source: &HashSet<u64>)
    ensures
        final(target)@ == old(target)@.union(source@),
{
    let ghost mut seen = Set::<u64>::empty();
    proof {
        lemma_enumerates(source.iter().remaining(), source@);
    }
    for handle in it: source.iter()
        invariant
            enumerates(it.seq(), source@),
            forall|i: int| 0 <= i < it.index() ==> seen.contains(*#[trigger] it.seq()[i]),
            seen.subset_of(source@),
            target@ == old(target)@.union(seen),
    {
        proof {
            seen = seen.insert(*handle);
        }
        target.insert(*handle);
        assert(target@ =~= old(target)@.union(seen));
    }
    assert(seen =~= source@);
}

/// Two states are mutually linked whichever of them is named first.
pub proof fn lemma_mutually_linked_is_symmetric(
    transitions: Set<FiniteAutomatonTransition>,
    a: u32,
    b: u32,
)
    ensures
        mutually_linked(transitions, a, b) == mutually_linked(transitions, b, a),
{
}

} // verus!
