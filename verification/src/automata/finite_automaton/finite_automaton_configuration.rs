//! A configuration of a finite automaton: the current state and the input
//! that has not been read yet.

use vstd::prelude::*;
use vstd::string::StrSliceExecFns;

use crate::automata::simulate_automaton::Configuration;

verus! {

/// What a configuration holds.
pub struct ConfigurationView {
    /// The current state.
    pub state: u32,
    /// The input that has not been read yet.
    pub remaining: Seq<char>,
}

/// A configuration in a finite automaton, including the remaining input.
#[derive(Debug, PartialEq, Eq)]
pub struct FiniteAutomatonConfiguration {
    pub(crate) state: u32,
    pub remaining_string: String,
}

impl View for FiniteAutomatonConfiguration {
    type V = ConfigurationView;

    open(crate) spec fn view(&self) -> ConfigurationView {
        ConfigurationView { state: self.state, remaining: self.remaining_string@ }
    }
}

impl Clone for FiniteAutomatonConfiguration {
    fn clone(&self) -> (copy: Self)
        ensures
            copy@ == self@,
    {
        Self { state: self.state, remaining_string: self.remaining_string.clone() }
    }
}

impl Configuration for FiniteAutomatonConfiguration {
    open(crate) spec fn position(&self) -> u32 {
        self.state
    }

    fn state(&self) -> (state: u32)
        ensures
            state == self@.state,
    {
        self.state
    }
}

impl FiniteAutomatonConfiguration {
    /// The configuration in `state` with `remaining_string` left to read.
    pub fn new(state: u32, remaining_string: String) -> (configuration: Self)
        ensures
            configuration@ == (ConfigurationView { state, remaining: remaining_string@ }),
    {
        Self { state, remaining_string }
    }

    /// Returns the next symbol and the string remaining after it, or None if
    /// there is no next symbol.
    pub fn next_symbol(&mut self) -> (next: Option<(char, String)>)
        ensures
            *final(self) == *old(self),
            match next {
                Some((symbol, rest)) => old(self)@.remaining.len() > 0 && symbol == old(
                    self,
                )@.remaining[0] && rest@ == old(self)@.remaining.skip(1),
                None => old(self)@.remaining.len() == 0,
            },
    {
        let remaining = self.remaining_string.as_str();
        if remaining.is_empty() {
            None
        } else {
            let length = remaining.unicode_len();
            Some((remaining.get_char(0), remaining.substring_char(1, length).to_owned()))
        }
    }
}

} // verus!
