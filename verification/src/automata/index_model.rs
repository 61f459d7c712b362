//! The transition index as mathematics: a map from handles to records and,
//! for each direction, a map from states to sets of handles, with the
//! conditions under which the three agree.

use vstd::prelude::*;

use std::collections::HashSet;

use crate::automata::finite_automaton::finite_automaton_transition::FiniteAutomatonTransition;
use crate::automata::slots::is_handle;
use crate::automata::transition::Transition;
use crate::automata::transition_set::clear_of;

verus! {

/// The handle sets of an index, state by state.
pub open spec fn buckets(index: Map<u32, HashSet<u64>>) -> Map<u32, Set<u64>> {
    Map::new(|s: u32| index.contains_key(s), |s: u32| index[s]@)
}

/// The records and the two indices agree: both indices cover the same
/// states, every record is filed under both of its endpoints, every filed
/// handle belongs to a record with that endpoint, and no transition is stored
/// twice.
pub open spec fn consistent(
    records: Map<u64, FiniteAutomatonTransition>,
    from: Map<u32, Set<u64>>,
    to: Map<u32, Set<u64>>,
) -> bool {
    &&& records.dom().finite()
    &&& from.dom() == to.dom()
    &&& forall|h: u64| #[trigger] records.contains_key(h) ==> is_handle(h)
    &&& forall|h1: u64, h2: u64|
        records.contains_key(h1) && records.contains_key(h2) && #[trigger] records[h1]
            == #[trigger] records[h2] ==> h1 == h2
    &&& forall|h: u64| #[trigger]
        records.contains_key(h) ==> {
            &&& from.contains_key(records[h].source())
            &&& from[records[h].source()].contains(h)
            &&& to.contains_key(records[h].target())
            &&& to[records[h].target()].contains(h)
        }
    &&& forall|s: u32, h: u64|
        from.contains_key(s) && #[trigger] from[s].contains(h) ==> records.contains_key(h)
            && records[h].source() == s
    &&& forall|s: u32, h: u64|
        to.contains_key(s) && #[trigger] to[s].contains(h) ==> records.contains_key(h)
            && records[h].target() == s
}

/// The records of `records` that are stored under a handle of `handles`.
pub open spec fn stored_under(
    records: Map<u64, FiniteAutomatonTransition>,
    handles: Set<u64>,
) -> Set<FiniteAutomatonTransition> {
    Set::new(
        |t: FiniteAutomatonTransition|
            exists|h: u64| handles.contains(h) && records.contains_key(h) && records[h] == t,
    )
}

/// The handles that `index` files under `state`: none if it has no entry.
pub open spec fn filed_under(index: Map<u32, Set<u64>>, state: u32) -> Set<u64> {
    if index.contains_key(state) {
        index[state]
    } else {
        Set::empty()
    }
}

/// The endpoint of `record` that an index goes by: its target in the index
/// of entering transitions, its source in that of leaving ones.
pub open spec fn endpoint(record: FiniteAutomatonTransition, entering: bool) -> u32 {
    if entering {
        record.target()
    } else {
        record.source()
    }
}

/// `index` after each handle of `handles` has been taken out of the bucket
/// of its record's endpoint.
pub open spec fn unfiled(
    index: Map<u32, Set<u64>>,
    records: Map<u64, FiniteAutomatonTransition>,
    handles: Set<u64>,
    entering: bool,
) -> Map<u32, Set<u64>> {
    Map::new(
        |s: u32| index.contains_key(s),
        |s: u32|
            index[s].filter(
                |h: u64|
                    !(handles.contains(h) && records.contains_key(h) && endpoint(
                        records[h],
                        entering,
                    ) == s),
            ),
    )
}

/// Reading the records under a duplicate-free sequence of handles gives a
/// duplicate-free sequence of records, when no record is stored twice.
pub proof fn lemma_listing(
    records: Map<u64, FiniteAutomatonTransition>,
    order: Seq<u64>,
    listing: Seq<FiniteAutomatonTransition>,
)
    requires
        forall|h1: u64, h2: u64|
            records.contains_key(h1) && records.contains_key(h2) && #[trigger] records[h1]
                == #[trigger] records[h2] ==> h1 == h2,
        order.no_duplicates(),
        forall|i: int| 0 <= i < order.len() ==> records.contains_key(#[trigger] order[i]),
        listing.len() == order.len(),
        forall|i: int| 0 <= i < order.len() ==> #[trigger] listing[i] == records[order[i]],
    ensures
        listing.no_duplicates(),
        listing.to_set() == stored_under(records, order.to_set()),
{
    assert forall|t: FiniteAutomatonTransition|
        listing.to_set().contains(t) implies stored_under(records, order.to_set()).contains(
        t,
    ) by {
        let i = choose|i: int| 0 <= i < listing.len() && listing[i] == t;
        assert(order.to_set().contains(order[i]));
    }
    assert forall|t: FiniteAutomatonTransition|
        stored_under(records, order.to_set()).contains(t) implies listing.to_set().contains(
        t,
    ) by {
        let h = choose|h: u64|
            order.to_set().contains(h) && records.contains_key(h) && records[h] == t;
        let i = choose|i: int| 0 <= i < order.len() && order[i] == h;
        assert(listing[i] == t);
    }
    assert(listing.to_set() =~= stored_under(records, order.to_set()));
}

/// Filing a new record under both of its endpoints keeps the index consistent.
pub proof fn lemma_consistent_insert(
    records: Map<u64, FiniteAutomatonTransition>,
    from: Map<u32, Set<u64>>,
    to: Map<u32, Set<u64>>,
    handle: u64,
    record: FiniteAutomatonTransition,
)
    requires
        consistent(records, from, to),
        is_handle(handle),
        !records.contains_key(handle),
        !records.values().contains(record),
        from.contains_key(record.source()),
        to.contains_key(record.target()),
    ensures
        consistent(
            records.insert(handle, record),
            from.insert(record.source(), from[record.source()].insert(handle)),
            to.insert(record.target(), to[record.target()].insert(handle)),
        ),
{
    let records2 = records.insert(handle, record);
    let from2 = from.insert(record.source(), from[record.source()].insert(handle));
    let to2 = to.insert(record.target(), to[record.target()].insert(handle));
    assert(from2.dom() =~= from.dom());
    assert(to2.dom() =~= to.dom());
    assert forall|h1: u64, h2: u64|
        records2.contains_key(h1) && records2.contains_key(h2) && #[trigger] records2[h1]
            == #[trigger] records2[h2] implies h1 == h2 by {
        if h1 == handle && h2 != handle {
            assert(records.contains_key(h2) && records[h2] == record);
        }
        if h2 == handle && h1 != handle {
            assert(records.contains_key(h1) && records[h1] == record);
        }
    }
    assert forall|h: u64| #[trigger] records2.contains_key(h) implies {
        &&& from2.contains_key(records2[h].source())
        &&& from2[records2[h].source()].contains(h)
        &&& to2.contains_key(records2[h].target())
        &&& to2[records2[h].target()].contains(h)
    } by {
        if h != handle {
            assert(records.contains_key(h));
        }
    }
    assert forall|s: u32, h: u64|
        from2.contains_key(s) && #[trigger] from2[s].contains(h) implies records2.contains_key(h)
        && records2[h].source() == s by {
        if h != handle {
            assert(from[s].contains(h));
        }
    }
    assert forall|s: u32, h: u64|
        to2.contains_key(s) && #[trigger] to2[s].contains(h) implies records2.contains_key(h)
        && records2[h].target() == s by {
        if h != handle {
            assert(to[s].contains(h));
        }
    }
}

/// Taking a record out of the map and out of the buckets of its two
/// endpoints keeps the index consistent.
pub proof fn lemma_consistent_remove(
    records: Map<u64, FiniteAutomatonTransition>,
    from: Map<u32, Set<u64>>,
    to: Map<u32, Set<u64>>,
    handle: u64,
)
    requires
        consistent(records, from, to),
        records.contains_key(handle),
    ensures
        consistent(
            records.remove(handle),
            from.insert(
                records[handle].source(),
                from[records[handle].source()].remove(handle),
            ),
            to.insert(records[handle].target(), to[records[handle].target()].remove(handle)),
        ),
{
    let record = records[handle];
    let records2 = records.remove(handle);
    let from2 = from.insert(record.source(), from[record.source()].remove(handle));
    let to2 = to.insert(record.target(), to[record.target()].remove(handle));
    assert(from2.dom() =~= from.dom());
    assert(to2.dom() =~= to.dom());
    assert forall|h: u64| #[trigger] records2.contains_key(h) implies {
        &&& from2.contains_key(records2[h].source())
        &&& from2[records2[h].source()].contains(h)
        &&& to2.contains_key(records2[h].target())
        &&& to2[records2[h].target()].contains(h)
    } by {
        assert(records.contains_key(h));
    }
    assert forall|s: u32, h: u64|
        from2.contains_key(s) && #[trigger] from2[s].contains(h) implies records2.contains_key(h)
        && records2[h].source() == s by {
        assert(from[s].contains(h));
    }
    assert forall|s: u32, h: u64|
        to2.contains_key(s) && #[trigger] to2[s].contains(h) implies records2.contains_key(h)
        && records2[h].target() == s by {
        assert(to[s].contains(h));
    }
}

/// Dropping a state's two entries, unfiling in each index the handles that
/// the other filed under that state, and deleting their records leaves a
/// consistent index that holds the transitions clear of the state.
pub proof fn lemma_consistent_unregister(
    records: Map<u64, FiniteAutomatonTransition>,
    from: Map<u32, Set<u64>>,
    to: Map<u32, Set<u64>>,
    state: u32,
)
    requires
        consistent(records, from, to),
    ensures
        ({
            let leaving = filed_under(from, state);
            let entering = filed_under(to, state);
            let records2 = records.remove_keys(leaving.union(entering));
            let from2 = unfiled(from.remove(state), records, entering, false);
            let to2 = unfiled(to.remove(state), records, leaving, true);
            &&& consistent(records2, from2, to2)
            &&& from2.dom() == from.dom().remove(state)
            &&& records2.values() == clear_of(records.values(), state)
        }),
{
    let leaving = filed_under(from, state);
    let entering = filed_under(to, state);
    let records2 = records.remove_keys(leaving.union(entering));
    let from2 = unfiled(from.remove(state), records, entering, false);
    let to2 = unfiled(to.remove(state), records, leaving, true);
    assert(from2.dom() =~= from.dom().remove(state));
    assert(to2.dom() =~= to.dom().remove(state));
    assert(records2.dom() =~= records.dom().difference(leaving.union(entering)));
    assert forall|h: u64| #[trigger] records.contains_key(h) implies (leaving.contains(h)
        <==> records[h].source() == state) && (entering.contains(h) <==> records[h].target()
        == state) by {
        if leaving.contains(h) {
            assert(from[state].contains(h));
        }
        if entering.contains(h) {
            assert(to[state].contains(h));
        }
    }
    assert forall|h: u64| #[trigger] records2.contains_key(h) implies {
        &&& from2.contains_key(records2[h].source())
        &&& from2[records2[h].source()].contains(h)
        &&& to2.contains_key(records2[h].target())
        &&& to2[records2[h].target()].contains(h)
    } by {
        assert(records.contains_key(h));
    }
    assert forall|s: u32, h: u64|
        from2.contains_key(s) && #[trigger] from2[s].contains(h) implies records2.contains_key(h)
        && records2[h].source() == s by {
        assert(from[s].contains(h));
        assert(records.contains_key(h));
    }
    assert forall|s: u32, h: u64|
        to2.contains_key(s) && #[trigger] to2[s].contains(h) implies records2.contains_key(h)
        && records2[h].target() == s by {
        assert(to[s].contains(h));
        assert(records.contains_key(h));
    }
    assert forall|t: FiniteAutomatonTransition| records2.values().contains(t) implies clear_of(
        records.values(),
        state,
    ).contains(t) by {
        let h = choose|h: u64| records2.contains_key(h) && records2[h] == t;
        assert(records.contains_key(h) && records[h] == t);
    }
    assert forall|t: FiniteAutomatonTransition|
        clear_of(records.values(), state).contains(t) implies records2.values().contains(t) by {
        let h = choose|h: u64| records.contains_key(h) && records[h] == t;
        assert(records2.contains_key(h) && records2[h] == t);
    }
    assert(records2.values() =~= clear_of(records.values(), state));
}

} // verus!
