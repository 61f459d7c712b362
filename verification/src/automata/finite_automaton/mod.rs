//! Finite automata: symbol-labelled transitions and their nondeterministic
//! simulation, with moves that read no input.

use vstd::prelude::*;

use crate::automata::automaton::Automaton;
use crate::automata::collections::lemma_contains_add;
use crate::automata::simulate_automaton::{Configuration, SimulateAutomaton};
use crate::automata::transition::Transition;
use crate::automata::EMPTY_STRING;

pub mod finite_automaton_configuration;
pub mod finite_automaton_transition;
pub mod semantics;

pub use self::finite_automaton_configuration::{ConfigurationView, FiniteAutomatonConfiguration};
pub use self::finite_automaton_transition::FiniteAutomatonTransition;
use self::semantics::{
    accepting, accepts_within, initial_of, is_step, is_step_all, lemma_nothing_to_read,
    lemma_reachable_earlier, lemma_step_members, reachable, reading_move, silent_move,
    steps_from_any, steps_to, successors_along,
};

verus! {

/// The number of rounds after which `check_input` gives up and rejects.
pub const MAX_ITERS: usize = 1000;

/// What each configuration of `configurations` holds.
pub open spec fn views(configurations: Seq<FiniteAutomatonConfiguration>) -> Seq<
    ConfigurationView,
> {
    configurations.map_values(|c: FiniteAutomatonConfiguration| c@)
}

/// A finite automaton defined by a state graph.
pub struct FiniteAutomaton {
    pub automaton: Automaton,
}

impl Default for FiniteAutomaton {
    /// A finite automaton with an empty graph.
    fn default() -> (made: Self)
        ensures
            made.automaton.wf(),
            made.automaton@.states == Set::<u32>::empty(),
            made.automaton@.transitions == Set::<FiniteAutomatonTransition>::empty(),
            made.automaton@.initial == None::<u32>,
            made.automaton@.finals == Set::<u32>::empty(),
    {
        FiniteAutomaton { automaton: Automaton::default() }
    }
}

impl SimulateAutomaton for FiniteAutomaton {
    type ConfigurationType = FiniteAutomatonConfiguration;

    open spec fn wf(&self) -> bool {
        self.automaton.wf()
    }

    /// The configuration at the initial state with all of `input` left to
    /// read, or nothing if the automaton has no initial state.
    fn initial_configurations(&self, input: &str) -> (configurations: Vec<
        FiniteAutomatonConfiguration,
    >)
        ensures
            views(configurations@) == initial_of(self.automaton@, input@),
    {
        let mut configurations = Vec::new();
        if let Some(initial) = self.automaton.initial() {
            configurations.push(FiniteAutomatonConfiguration::new(initial, input.to_owned()));
            assert(views(configurations@) =~= seq![
                ConfigurationView { state: initial, remaining: input@ },
            ]);
        } else {
            assert(views(configurations@) =~= Seq::<ConfigurationView>::empty());
        }
        configurations
    }

    /// The successors of `configuration`: along every transition that
    /// leaves its state with the empty label, the target with the input
    /// untouched; then, if there is input left, along every transition that
    /// leaves its state with the next symbol as label, the target with the
    /// rest of the input.
    fn step(&self, mut configuration: FiniteAutomatonConfiguration) -> (successors: Vec<
        FiniteAutomatonConfiguration,
    >)
        ensures
            is_step(self.automaton@, configuration@, views(successors@)),
            forall|to: ConfigurationView|
                views(successors@).contains(to) <==> steps_to(
                    self.automaton@,
                    configuration@,
                    to,
                ),
    {
        let ghost from = configuration@;
        let transitions = self.automaton.transitions_from(configuration.state());
        let ghost outgoing = transitions@.unref();
        let ghost silent = |t: FiniteAutomatonTransition| silent_move(t, from);
        let ghost reading = |t: FiniteAutomatonTransition| reading_move(t, from);
        let mut new_configurations: Vec<FiniteAutomatonConfiguration> = Vec::new();
        assert(outgoing.take(0).filter_map(silent) =~= Seq::<ConfigurationView>::empty());
        for i in 0..transitions.len()
            invariant
                outgoing == transitions@.unref(),
                configuration@ == from,
                silent == |t: FiniteAutomatonTransition| silent_move(t, from),
                views(new_configurations@) == outgoing.take(i as int).filter_map(silent),
        {
            let transition = transitions[i];
            proof {
                outgoing.lemma_filter_map_take_succ(silent, i as int);
            }
            if transition.symbol() == EMPTY_STRING {
                new_configurations.push(
                    FiniteAutomatonConfiguration::new(
                        transition.to(),
                        configuration.remaining_string.clone(),
                    ),
                );
            }
            assert(views(new_configurations@) =~= outgoing.take(i + 1).filter_map(silent));
        }
        assert(outgoing.take(transitions.len() as int) =~= outgoing);
        let ghost silent_moves = views(new_configurations@);
        if let Some((symbol, remaining)) = configuration.next_symbol() {
            assert(outgoing.take(0).filter_map(reading) =~= Seq::<ConfigurationView>::empty());
            for i in 0..transitions.len()
                invariant
                    outgoing == transitions@.unref(),
                    from.remaining.len() > 0,
                    symbol == from.remaining[0],
                    remaining@ == from.remaining.skip(1),
                    reading == |t: FiniteAutomatonTransition| reading_move(t, from),
                    views(new_configurations@) == silent_moves + outgoing.take(i as int).filter_map(
                        reading,
                    ),
            {
                let transition = transitions[i];
                let ghost before = views(new_configurations@);
                proof {
                    outgoing.lemma_filter_map_take_succ(reading, i as int);
                }
                if transition.symbol() == symbol {
                    new_configurations.push(
                        FiniteAutomatonConfiguration::new(transition.to(), remaining.clone()),
                    );
                    assert(reading(outgoing[i as int]) == Some(
                        ConfigurationView {
                            state: transition.target(),
                            remaining: from.remaining.skip(1),
                        },
                    ));
                    assert(views(new_configurations@) =~= before.push(
                        ConfigurationView {
                            state: transition.target(),
                            remaining: from.remaining.skip(1),
                        },
                    ));
                } else {
                    assert(reading(outgoing[i as int]) is None);
                }
                assert(views(new_configurations@) =~= silent_moves + outgoing.take(
                    i + 1,
                ).filter_map(reading));
            }
        } else {
            proof {
                lemma_nothing_to_read(outgoing, from);
                assert(views(new_configurations@) =~= silent_moves + outgoing.filter_map(reading));
            }
        }
        proof {
            assert(views(new_configurations@) == successors_along(outgoing, from));
            lemma_step_members(self.automaton@, from, outgoing);
        }
        new_configurations
    }

    /// The successors of every configuration of `configurations`, one
    /// configuration after the other.
    fn step_all(&self, configurations: Vec<FiniteAutomatonConfiguration>) -> (successors: Vec<
        FiniteAutomatonConfiguration,
    >)
        ensures
            is_step_all(self.automaton@, views(configurations@), views(successors@)),
            forall|to: ConfigurationView|
                views(successors@).contains(to) <==> steps_from_any(
                    self.automaton@,
                    views(configurations@),
                    to,
                ),
    {
        let ghost from = views(configurations@);
        let ghost mut parts = Seq::<Seq<ConfigurationView>>::empty();
        let mut successors: Vec<FiniteAutomatonConfiguration> = Vec::new();
        assert(views(successors@) =~= parts.flatten());
        for configuration in it: configurations.into_iter()
            invariant
                self.automaton.wf(),
                views(it.seq()) == from,
                parts.len() == it.index(),
                forall|i: int|
                    0 <= i < it.index() ==> is_step(self.automaton@, from[i], #[trigger] parts[i]),
                views(successors@) == parts.flatten(),
                forall|to: ConfigurationView|
                    views(successors@).contains(to) <==> steps_from_any(
                        self.automaton@,
                        from.take(it.index()),
                        to,
                    ),
        {
            let ghost index = it.index();
            let ghost before = views(successors@);
            assert(configuration@ == from[index]);
            let mut part = self.step(configuration);
            proof {
                let added = views(part@);
                assert forall|to: ConfigurationView|
                    (before + added).contains(to) <==> steps_from_any(
                        self.automaton@,
                        from.take(index + 1),
                        to,
                    ) by {
                    lemma_contains_add(before, added, to);
                    if steps_from_any(self.automaton@, from.take(index + 1), to) {
                        let i = choose|i: int|
                            0 <= i < from.take(index + 1).len() && steps_to(
                                self.automaton@,
                                #[trigger] from.take(index + 1)[i],
                                to,
                            );
                        if i < index {
                            assert(from.take(index)[i] == from[i]);
                        }
                    }
                    if before.contains(to) {
                        let i = choose|i: int|
                            0 <= i < from.take(index).len() && steps_to(
                                self.automaton@,
                                #[trigger] from.take(index)[i],
                                to,
                            );
                        assert(from.take(index + 1)[i] == from[i]);
                    }
                    if added.contains(to) {
                        assert(from.take(index + 1)[index] == from[index]);
                    }
                }
                parts.lemma_flatten_push(added);
                parts = parts.push(added);
            }
            let ghost held = successors@;
            let ghost gained = part@;
            successors.append(&mut part);
            assert(views(successors@) =~= before + views(gained)) by {
                assert(successors@ =~= held + gained);
            }
        }
        assert(from.take(from.len() as int) =~= from);
        successors
    }

    /// Whether the automaton accepts `input`: whether, from the initial
    /// configuration, some configuration with no input left and a final
    /// state is reached in fewer than [`MAX_ITERS`] rounds of steps. An
    /// input that would only be accepted later is rejected.
    fn check_input(&self, input: &str) -> (accepted: bool)
        ensures
            accepted == accepts_within(self.automaton@, input@, MAX_ITERS as nat),
    {
        let mut configurations = self.initial_configurations(input);
        let ghost starts = initial_of(self.automaton@, input@);
        for round in 0..MAX_ITERS
            invariant
                self.automaton.wf(),
                starts == initial_of(self.automaton@, input@),
                forall|to: ConfigurationView|
                    views(configurations@).contains(to) <==> reachable(
                        self.automaton@,
                        starts,
                        round as nat,
                        to,
                    ),
                forall|k: nat, to: ConfigurationView|
                    k < round && #[trigger] reachable(self.automaton@, starts, k, to)
                        ==> !accepting(self.automaton@, to),
        {
            if configurations.is_empty() {
                proof {
                    assert forall|k: nat, to: ConfigurationView|
                        k >= round implies !#[trigger] reachable(
                        self.automaton@,
                        starts,
                        k,
                        to,
                    ) by {
                        if reachable(self.automaton@, starts, k, to) {
                            lemma_reachable_earlier(self.automaton@, starts, round as nat, k, to);
                            let via = choose|via: ConfigurationView|
                                reachable(self.automaton@, starts, round as nat, via);
                            assert(views(configurations@).contains(via));
                        }
                    }
                }
                return false;
            }
            if self.any_accepting(&configurations) {
                proof {
                    let to = choose|to: ConfigurationView|
                        views(configurations@).contains(to) && accepting(self.automaton@, to);
                    assert(reachable(self.automaton@, starts, round as nat, to));
                }
                return true;
            }
            let ghost before = views(configurations@);
            configurations = self.step_all(configurations);
            proof {
                assert forall|to: ConfigurationView|
                    views(configurations@).contains(to) <==> reachable(
                        self.automaton@,
                        starts,
                        (round + 1) as nat,
                        to,
                    ) by {
                    if views(configurations@).contains(to) {
                        let i = choose|i: int|
                            0 <= i < before.len() && steps_to(
                                self.automaton@,
                                #[trigger] before[i],
                                to,
                            );
                        assert(before.contains(before[i]));
                        assert(reachable(self.automaton@, starts, round as nat, before[i]));
                    }
                    if reachable(self.automaton@, starts, (round + 1) as nat, to) {
                        let via = choose|via: ConfigurationView|
                            reachable(self.automaton@, starts, round as nat, via) && steps_to(
                                self.automaton@,
                                via,
                                to,
                            );
                        assert(before.contains(via));
                        let i = choose|i: int| 0 <= i < before.len() && before[i] == via;
                        assert(steps_to(self.automaton@, before[i], to));
                    }
                }
            }
        }
        false
    }
}

impl FiniteAutomaton {
    /// Whether some configuration of `configurations` has no input left and
    /// is in a final state.
    fn any_accepting(&self, configurations: &Vec<FiniteAutomatonConfiguration>) -> (found: bool)
        ensures
            found == exists|to: ConfigurationView|
                views(configurations@).contains(to) && accepting(self.automaton@, to),
    {
        for i in 0..configurations.len()
            invariant
                forall|j: int|
                    0 <= j < i ==> !accepting(self.automaton@, (#[trigger] configurations@[j])@),
        {
            let conf = &configurations[i];
            if conf.remaining_string.as_str().is_empty() && self.automaton.is_final(conf.state()) {
                assert(views(configurations@)[i as int] == conf@);
                assert(views(configurations@).contains(conf@) && accepting(
                    self.automaton@,
                    conf@,
                ));
                return true;
            }
        }
        proof {
            assert forall|to: ConfigurationView|
                views(configurations@).contains(to) implies !accepting(self.automaton@, to) by {
                let j = choose|j: int|
                    0 <= j < views(configurations@).len() && views(configurations@)[j] == to;
                assert(configurations@[j]@ == to);
            }
        }
        false
    }
}

} // verus!
