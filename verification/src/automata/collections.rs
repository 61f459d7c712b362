//! Facts about sequences, sets and maps that the proofs of the library use.

use vstd::prelude::*;
use vstd::relations::injective_on;
use vstd::set_lib::{lemma_int_range, lemma_len_subset, lemma_map_size, set_int_range};

verus! {

/// `listing` holds each element of `set` once, and nothing else.
pub open spec fn lists<T>(listing: Seq<&T>, set: Set<T>) -> bool {
    &&& listing.unref().no_duplicates()
    &&& listing.unref().to_set() == set
}

/// `order` runs through `set`: it holds each element once, and nothing else.
/// This says what [`lists`] says, index by index, as loop invariants need it.
pub open spec fn enumerates<T>(order: Seq<&T>, set: Set<T>) -> bool {
    &&& forall|x: T| #[trigger]
        set.contains(x) ==> exists|i: int| 0 <= i < order.len() && *#[trigger] order[i] == x
    &&& forall|i: int| 0 <= i < order.len() ==> set.contains(*#[trigger] order[i])
    &&& forall|i: int, j: int|
        0 <= i < j < order.len() ==> *#[trigger] order[i] != *#[trigger] order[j]
}

/// A duplicate-free sequence whose elements make up `set` runs through `set`.
pub proof fn lemma_enumerates<T>(order: Seq<&T>, set: Set<T>)
    requires
        order.no_duplicates(),
        order.unref().to_set() == set,
    ensures
        enumerates(order, set),
{
    assert forall|x: T| #[trigger] set.contains(x) implies exists|i: int|
        0 <= i < order.len() && *#[trigger] order[i] == x by {
        let i = choose|i: int| 0 <= i < order.unref().len() && order.unref()[i] == x;
        assert(*order[i] == x);
    }
    assert forall|i: int| 0 <= i < order.len() implies set.contains(*#[trigger] order[i]) by {
        assert(order.unref()[i] == *order[i]);
        assert(order.unref().to_set().contains(order.unref()[i]));
    }
}

/// A finite set of numbers of type `u32` leaves one of them out exactly if
/// it holds at most `u32::MAX` of them.
pub proof fn lemma_some_u32_is_left(taken: Set<u32>)
    requires
        taken.finite(),
    ensures
        taken.len() <= u32::MAX <==> exists|free: u32| !taken.contains(free),
{
    let widen = |x: u32| x as int;
    let all = set_int_range(0, 0x1_0000_0000);
    let wide = taken.map(widen);
    assert(injective_on(widen, taken));
    lemma_map_size(taken, wide, widen);
    lemma_int_range(0, 0x1_0000_0000);
    if forall|x: u32| taken.contains(x) {
        assert(wide =~= all) by {
            assert forall|i: int| all.contains(i) implies wide.contains(i) by {
                let x = i as u32;
                assert(taken.contains(x) && widen(x) == i);
            }
        }
    } else {
        let free = choose|free: u32| !taken.contains(free);
        assert(wide.subset_of(all.remove(free as int))) by {
            assert forall|i: int| wide.contains(i) implies all.remove(free as int).contains(
                i,
            ) by {
                let x = choose|x: u32| taken.contains(x) && widen(x) == i;
            }
        }
        lemma_len_subset(wide, all.remove(free as int));
    }
}

/// An element of two sequences joined is an element of one of them.
pub proof fn lemma_contains_add<A>(first: Seq<A>, second: Seq<A>, a: A)
    ensures
        (first + second).contains(a) <==> first.contains(a) || second.contains(a),
{
    if (first + second).contains(a) {
        let i = choose|i: int| 0 <= i < (first + second).len() && (first + second)[i] == a;
        if i < first.len() {
            assert(first[i] == a);
        } else {
            assert(second[i - first.len()] == a);
        }
    }
    if first.contains(a) {
        let i = choose|i: int| 0 <= i < first.len() && first[i] == a;
        assert((first + second)[i] == a);
    }
    if second.contains(a) {
        let i = choose|i: int| 0 <= i < second.len() && second[i] == a;
        assert((first + second)[first.len() + i] == a);
    }
}

/// What a function makes of an element of a sequence is an element of the
/// sequence mapped and filtered by that function.
pub proof fn lemma_filter_map_yields<A, B>(s: Seq<A>, f: spec_fn(A) -> Option<B>, a: A, b: B)
    requires
        s.contains(a),
        f(a) == Some(b),
    ensures
        s.filter_map(f).contains(b),
    decreases s.len(),
{
    if s.len() > 0 {
        let rest = s.drop_last();
        if s.last() == a {
            let mapped = rest.filter_map(f) + seq![b];
            assert(mapped[mapped.len() - 1] == b);
        } else {
            let i = choose|i: int| 0 <= i < s.len() && s[i] == a;
            assert(rest[i] == a);
            lemma_filter_map_yields(rest, f, a, b);
            let j = choose|j: int|
                0 <= j < rest.filter_map(f).len() && rest.filter_map(f)[j] == b;
            match f(s.last()) {
                Some(other) => {
                    assert((rest.filter_map(f) + seq![other])[j] == b);
                },
                None => {},
            }
        }
    }
}

/// Storing a value under a key that a map does not hold adds that value to
/// the map's values.
pub proof fn lemma_values_insert<K, V>(m: Map<K, V>, key: K, value: V)
    requires
        !m.contains_key(key),
    ensures
        m.insert(key, value).values() == m.values().insert(value),
{
    let after = m.insert(key, value);
    assert forall|v: V| after.values().contains(v) implies m.values().insert(value).contains(
        v,
    ) by {
        let k = choose|k: K| after.contains_key(k) && after[k] == v;
        if k != key {
            assert(m.contains_key(k) && m[k] == v);
        }
    }
    assert forall|v: V| m.values().insert(value).contains(v) implies after.values().contains(
        v,
    ) by {
        if v == value {
            assert(after.contains_key(key) && after[key] == v);
        } else {
            let k = choose|k: K| m.contains_key(k) && m[k] == v;
            assert(after.contains_key(k) && after[k] == v);
        }
    }
    assert(after.values() =~= m.values().insert(value));
}

/// Taking out the one key under which a value is stored takes that value
/// out of the map's values.
pub proof fn lemma_values_remove<K, V>(m: Map<K, V>, key: K)
    requires
        m.contains_key(key),
        forall|k1: K, k2: K|
            m.contains_key(k1) && m.contains_key(k2) && #[trigger] m[k1] == #[trigger] m[k2]
                ==> k1 == k2,
    ensures
        m.remove(key).values() == m.values().remove(m[key]),
{
    let after = m.remove(key);
    assert forall|v: V| after.values().contains(v) implies m.values().remove(m[key]).contains(
        v,
    ) by {
        let k = choose|k: K| after.contains_key(k) && after[k] == v;
        assert(m.contains_key(k) && m[k] == v);
    }
    assert forall|v: V| m.values().remove(m[key]).contains(v) implies after.values().contains(
        v,
    ) by {
        let k = choose|k: K| m.contains_key(k) && m[k] == v;
        assert(after.contains_key(k) && after[k] == v);
    }
    assert(after.values() =~= m.values().remove(m[key]));
}

/// A finite map that sends different keys to different values has as many
/// values as keys.
pub proof fn lemma_injective_values_len<K, V>(m: Map<K, V>)
    requires
        m.dom().finite(),
        forall|k1: K, k2: K|
            m.contains_key(k1) && m.contains_key(k2) && #[trigger] m[k1] == #[trigger] m[k2]
                ==> k1 == k2,
    ensures
        m.values().finite(),
        m.values().len() == m.dom().len(),
    decreases m.dom().len(),
{
    if m.dom().len() == 0 {
        assert(m.dom() =~= Set::<K>::empty());
        assert(m.values() =~= Set::<V>::empty());
    } else {
        let k = m.dom().choose();
        let rest = m.remove(k);
        assert(rest.dom() =~= m.dom().remove(k));
        lemma_injective_values_len(rest);
        assert(m.values() =~= rest.values().insert(m[k])) by {
            assert forall|v: V| m.values().contains(v) implies rest.values().insert(m[k]).contains(
                v,
            ) by {
                let kv = choose|kv: K| m.contains_key(kv) && m[kv] == v;
                if kv != k {
                    assert(rest.contains_key(kv) && rest[kv] == v);
                }
            }
            assert forall|v: V| rest.values().insert(m[k]).contains(v) implies m.values().contains(
                v,
            ) by {
                if v == m[k] {
                    assert(m.contains_key(k));
                } else {
                    let kv = choose|kv: K| rest.contains_key(kv) && rest[kv] == v;
                    assert(m.contains_key(kv) && m[kv] == v);
                }
            }
        }
        assert(!rest.values().contains(m[k])) by {
            if rest.values().contains(m[k]) {
                let kv = choose|kv: K| rest.contains_key(kv) && rest[kv] == m[k];
                assert(m.contains_key(kv) && m.contains_key(k) && m[kv] == m[k]);
            }
        }
    }
}

} // verus!
