//! The interface of a directed edge between two states.

use vstd::prelude::*;

verus! {

/// A directed edge of an automaton graph: it leaves one state and enters another.
pub trait Transition: Default + PartialEq {
    /// The state that the edge leaves, as contracts see it.
    spec fn source(&self) -> u32;

    /// The state that the edge enters, as contracts see it.
    spec fn target(&self) -> u32;

    /// The state that the edge leaves.
    fn from(&self) -> (state: u32)
        ensures
            state == self.source(),
    ;

    /// The state that the edge enters.
    fn to(&self) -> (state: u32)
        ensures
            state == self.target(),
    ;
}

} // verus!
