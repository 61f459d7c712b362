//! What a simulation computes, as mathematics: the moves along one
//! transition, the successors of a configuration, the configurations reached
//! after a number of rounds, and acceptance.

use vstd::prelude::*;

use crate::automata::automaton::AutomatonView;
use crate::automata::collections::lemma_filter_map_yields;
use crate::automata::finite_automaton::finite_automaton_configuration::ConfigurationView;
use crate::automata::finite_automaton::finite_automaton_transition::FiniteAutomatonTransition;
use crate::automata::transition::Transition;
use crate::automata::transition_set::leaving;
use crate::automata::EMPTY_STRING;

verus! {

/// Where `from` gets along `transition` without reading input: to the
/// transition's target, if the transition carries the empty label.
pub open spec fn silent_move(
    transition: FiniteAutomatonTransition,
    from: ConfigurationView,
) -> Option<ConfigurationView> {
    if transition.label() == EMPTY_STRING {
        Some(ConfigurationView { state: transition.target(), remaining: from.remaining })
    } else {
        None
    }
}

/// Where `from` gets along `transition` by reading one symbol: to the
/// transition's target with the rest of the input, if the input is not
/// empty and starts with the transition's label.
pub open spec fn reading_move(
    transition: FiniteAutomatonTransition,
    from: ConfigurationView,
) -> Option<ConfigurationView> {
    if from.remaining.len() > 0 && transition.label() == from.remaining[0] {
        Some(ConfigurationView { state: transition.target(), remaining: from.remaining.skip(1) })
    } else {
        None
    }
}

/// The successors of `from` along the transitions `outgoing`, in their
/// order: first the moves that read nothing, then the moves that read the
/// next symbol. A transition with the empty label makes both moves when the
/// input starts with the very character that stands for the empty label.
pub open spec fn successors_along(
    outgoing: Seq<FiniteAutomatonTransition>,
    from: ConfigurationView,
) -> Seq<ConfigurationView> {
    outgoing.filter_map(|t: FiniteAutomatonTransition| silent_move(t, from))
        + outgoing.filter_map(|t: FiniteAutomatonTransition| reading_move(t, from))
}

/// Whether `successors` is what one step from `from` yields in `automaton`:
/// the successors along the transitions that leave the state of `from`,
/// each transition taken once, in some order.
pub open spec fn is_step(
    automaton: AutomatonView,
    from: ConfigurationView,
    successors: Seq<ConfigurationView>,
) -> bool {
    exists|outgoing: Seq<FiniteAutomatonTransition>|
        #![trigger successors_along(outgoing, from)]
        outgoing.no_duplicates() && outgoing.to_set() == leaving(
            automaton.transitions,
            from.state,
        ) && successors == successors_along(outgoing, from)
}

/// Whether one step leads from `from` to `to` in `automaton`.
pub open spec fn steps_to(
    automaton: AutomatonView,
    from: ConfigurationView,
    to: ConfigurationView,
) -> bool {
    exists|t: FiniteAutomatonTransition|
        #![trigger automaton.transitions.contains(t)]
        automaton.transitions.contains(t) && t.source() == from.state && (silent_move(t, from)
            == Some(to) || reading_move(t, from) == Some(to))
}

/// Whether `successors` is what stepping every configuration of `from`
/// yields: for each one what one step yields, joined in their order.
pub open spec fn is_step_all(
    automaton: AutomatonView,
    from: Seq<ConfigurationView>,
    successors: Seq<ConfigurationView>,
) -> bool {
    exists|parts: Seq<Seq<ConfigurationView>>|
        #![trigger parts.flatten()]
        parts.len() == from.len() && (forall|i: int|
            0 <= i < from.len() ==> is_step(automaton, from[i], #[trigger] parts[i]))
            && successors == parts.flatten()
}

/// Whether one step leads to `to` from some configuration of `from`.
pub open spec fn steps_from_any(
    automaton: AutomatonView,
    from: Seq<ConfigurationView>,
    to: ConfigurationView,
) -> bool {
    exists|i: int| 0 <= i < from.len() && steps_to(automaton, #[trigger] from[i], to)
}

/// Whether `to` is reached from a configuration of `starts` in exactly
/// `rounds` steps.
pub open spec fn reachable(
    automaton: AutomatonView,
    starts: Seq<ConfigurationView>,
    rounds: nat,
    to: ConfigurationView,
) -> bool
    decreases rounds,
{
    if rounds == 0 {
        starts.contains(to)
    } else {
        exists|via: ConfigurationView|
            reachable(automaton, starts, (rounds - 1) as nat, via) && steps_to(automaton, via, to)
    }
}

/// Whether a configuration accepts: no input is left and its state is final.
pub open spec fn accepting(automaton: AutomatonView, configuration: ConfigurationView) -> bool {
    configuration.remaining.len() == 0 && automaton.finals.contains(configuration.state)
}

/// The configurations that a simulation of `input` starts with: the initial
/// state with all of the input left, if the automaton has an initial state.
pub open spec fn initial_of(automaton: AutomatonView, input: Seq<char>) -> Seq<ConfigurationView> {
    match automaton.initial {
        Some(state) => seq![ConfigurationView { state, remaining: input }],
        None => Seq::empty(),
    }
}

/// Whether some accepting configuration is reached from the initial one in
/// fewer than `rounds` steps.
pub open spec fn accepts_within(automaton: AutomatonView, input: Seq<char>, rounds: nat) -> bool {
    exists|k: nat, to: ConfigurationView|
        k < rounds && #[trigger] reachable(automaton, initial_of(automaton, input), k, to)
            && accepting(automaton, to)
}

/// With no input left, no transition is taken by reading.
pub proof fn lemma_nothing_to_read(
    outgoing: Seq<FiniteAutomatonTransition>,
    from: ConfigurationView,
)
    requires
        from.remaining.len() == 0,
    ensures
        outgoing.filter_map(|t: FiniteAutomatonTransition| reading_move(t, from))
            == Seq::<ConfigurationView>::empty(),
    decreases outgoing.len(),
{
    let reading = |t: FiniteAutomatonTransition| reading_move(t, from);
    if outgoing.len() > 0 {
        lemma_nothing_to_read(outgoing.drop_last(), from);
        assert(outgoing.filter_map(reading) =~= outgoing.drop_last().filter_map(reading));
    }
}

/// A configuration is among the successors along a listing of the
/// transitions that leave a state exactly if one step leads to it.
pub proof fn lemma_step_members(
    automaton: AutomatonView,
    from: ConfigurationView,
    outgoing: Seq<FiniteAutomatonTransition>,
)
    requires
        outgoing.to_set() == leaving(automaton.transitions, from.state),
    ensures
        forall|to: ConfigurationView|
            successors_along(outgoing, from).contains(to) <==> steps_to(automaton, from, to),
{
    let silent = |t: FiniteAutomatonTransition| silent_move(t, from);
    let reading = |t: FiniteAutomatonTransition| reading_move(t, from);
    let first = outgoing.filter_map(silent);
    let second = outgoing.filter_map(reading);
    assert forall|to: ConfigurationView|
        successors_along(outgoing, from).contains(to) <==> steps_to(automaton, from, to) by {
        if successors_along(outgoing, from).contains(to) {
            let i = choose|i: int| 0 <= i < (first + second).len() && (first + second)[i] == to;
            if i < first.len() {
                assert(first.contains(to));
                outgoing.lemma_filter_map_contains(silent, to);
                let t = choose|t: FiniteAutomatonTransition|
                    outgoing.contains(t) && silent(t) == Some(to);
                assert(outgoing.to_set().contains(t));
                assert(automaton.transitions.contains(t));
            } else {
                assert(second[i - first.len()] == to);
                assert(second.contains(to));
                outgoing.lemma_filter_map_contains(reading, to);
                let t = choose|t: FiniteAutomatonTransition|
                    outgoing.contains(t) && reading(t) == Some(to);
                assert(outgoing.to_set().contains(t));
                assert(automaton.transitions.contains(t));
            }
        }
        if steps_to(automaton, from, to) {
            let t = choose|t: FiniteAutomatonTransition|
                #![trigger automaton.transitions.contains(t)]
                automaton.transitions.contains(t) && t.source() == from.state && (silent_move(
                    t,
                    from,
                ) == Some(to) || reading_move(t, from) == Some(to));
            assert(leaving(automaton.transitions, from.state).contains(t));
            assert(outgoing.contains(t));
            if silent_move(t, from) == Some(to) {
                assert(silent(t) == Some(to));
                lemma_filter_map_yields(outgoing, silent, t, to);
                assert(first.contains(to));
                let i = choose|i: int| 0 <= i < first.len() && first[i] == to;
                assert((first + second)[i] == to);
            } else {
                assert(reading(t) == Some(to));
                lemma_filter_map_yields(outgoing, reading, t, to);
                assert(second.contains(to));
                let i = choose|i: int| 0 <= i < second.len() && second[i] == to;
                assert((first + second)[first.len() + i] == to);
            }
        }
    }
}

/// Whatever is reached in `later` steps lies beyond something reached in
/// `earlier` steps.
pub proof fn lemma_reachable_earlier(
    automaton: AutomatonView,
    starts: Seq<ConfigurationView>,
    earlier: nat,
    later: nat,
    to: ConfigurationView,
)
    requires
        earlier <= later,
        reachable(automaton, starts, later, to),
    ensures
        exists|via: ConfigurationView| reachable(automaton, starts, earlier, via),
    decreases later,
{
    if earlier < later {
        let via = choose|via: ConfigurationView|
            reachable(automaton, starts, (later - 1) as nat, via) && steps_to(automaton, via, to);
        lemma_reachable_earlier(automaton, starts, earlier, (later - 1) as nat, via);
    }
}

/// Without an initial state a simulation starts with no configuration,
/// reaches none, and accepts no input, however many rounds it is given.
pub proof fn lemma_no_initial_state_rejects(
    automaton: AutomatonView,
    input: Seq<char>,
    rounds: nat,
)
    requires
        automaton.initial is None,
    ensures
        initial_of(automaton, input) == Seq::<ConfigurationView>::empty(),
        !accepts_within(automaton, input, rounds),
{
    let starts = initial_of(automaton, input);
    assert forall|k: nat, to: ConfigurationView| !#[trigger] reachable(
        automaton,
        starts,
        k,
        to,
    ) by {
        if reachable(automaton, starts, k, to) {
            lemma_reachable_earlier(automaton, starts, 0, k, to);
        }
    }
}

} // verus!
