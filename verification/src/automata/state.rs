//! The marker stored for each registered state.

use vstd::prelude::*;

verus! {

/// A state of an automaton. It carries no data of its own: a state is known
/// by its identifier.
#[derive(Clone, Copy, Debug, Default, PartialEq, Eq)]
pub struct State {}

} // verus!
