//! The interface of a simulation: configurations and the operations that
//! advance them.

use vstd::prelude::*;

verus! {

/// The full details of a configuration being simulated.
pub trait Configuration: Clone {
    /// The state that the configuration is in, as contracts see it.
    spec fn position(&self) -> u32;

    /// The state that the configuration is in.
    fn state(&self) -> (state: u32)
        ensures
            state == self.position(),
    ;
}

/// Declares methods for controlling a simulation on an automaton.
pub trait SimulateAutomaton {
    type ConfigurationType: Configuration;

    /// The invariant of the automaton that is simulated.
    spec fn wf(&self) -> bool;

    /// Get the list of initial configurations for a given string.
    fn initial_configurations(&self, input: &str) -> (configurations: Vec<
        Self::ConfigurationType,
    >)
        requires
            self.wf(),
    ;

    /// Consumes a configuration and returns all possible subsequent
    /// configurations.
    fn step(&self, configuration: Self::ConfigurationType) -> (successors: Vec<
        Self::ConfigurationType,
    >)
        requires
            self.wf(),
    ;

    /// Consumes a list of configurations and returns the flat list of all
    /// possible subsequent configurations.
    fn step_all(&self, configurations: Vec<Self::ConfigurationType>) -> (successors: Vec<
        Self::ConfigurationType,
    >)
        requires
            self.wf(),
    ;

    /// Check whether an input is accepted.
    fn check_input(&self, input: &str) -> (accepted: bool)
        requires
            self.wf(),
    ;
}

} // verus!
