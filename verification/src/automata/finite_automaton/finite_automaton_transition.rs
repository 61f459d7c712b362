//! A transition of a finite automaton: two states and the symbol read between them.

use vstd::prelude::*;

use crate::automata::transition::Transition;

verus! {

/// A transition between two states in a finite automaton.
#[derive(Clone, Copy, Debug, PartialEq, Eq, Hash, Structural)]
pub struct FiniteAutomatonTransition {
    pub(crate) from: u32,
    pub(crate) to: u32,
    pub(crate) symbol: char,
}

impl Default for FiniteAutomatonTransition {
    fn default() -> (transition: Self)
        ensures
            transition.source() == 0,
            transition.target() == 0,
            transition.label() == '\0',
    {
        Self { from: 0, to: 0, symbol: '\0' }
    }
}

impl Transition for FiniteAutomatonTransition {
    open(crate) spec fn source(&self) -> u32 {
        self.from
    }

    open(crate) spec fn target(&self) -> u32 {
        self.to
    }

    fn from(&self) -> (state: u32) {
        self.from
    }

    fn to(&self) -> (state: u32) {
        self.to
    }
}

impl FiniteAutomatonTransition {
    /// The symbol that the transition reads, as contracts see it.
    pub open(crate) spec fn label(&self) -> char {
        self.symbol
    }

    /// A transition from `from` to `to` that reads `symbol`.
    pub fn new(from: u32, to: u32, symbol: char) -> (transition: Self)
        ensures
            transition.source() == from,
            transition.target() == to,
            transition.label() == symbol,
    {
        Self { from, to, symbol }
    }

    /// The symbol that the transition reads.
    pub fn symbol(&self) -> (symbol: char)
        ensures
            symbol == self.label(),
    {
        self.symbol
    }
}

} // verus!
