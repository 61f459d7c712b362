//! Finite automata over a mutable graph of states and labelled transitions,
//! with a verified nondeterministic simulation engine.

pub mod automata;
