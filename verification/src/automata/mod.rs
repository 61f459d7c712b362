//! The automaton graph, its transition index and the simulation engine.

use vstd::prelude::*;

pub mod automaton;
pub mod collections;
pub mod finite_automaton;
pub mod index_model;
pub mod simulate_automaton;
pub mod slots;
pub mod state;
pub mod transition;
pub mod transition_set;

pub use self::automaton::Automaton;
pub use self::simulate_automaton::{Configuration, SimulateAutomaton};
pub use self::state::State;
pub use self::transition::Transition;
pub use self::transition_set::TransitionSet;

verus! {

/// The label of a transition that consumes no input.
pub const EMPTY_STRING: char = '\u{3bb}';

} // verus!
