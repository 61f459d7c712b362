//! The slot map that stores the transition records, as the verifier sees it.
//!
//! Nothing in this file is proved: each item states what the `slotmap` crate
//! does, and the proofs of the transition index rest on these statements.

use vstd::prelude::*;

use slotmap::{DefaultKey, Key, KeyData, SlotMap};

use crate::automata::finite_automaton::finite_automaton_transition::FiniteAutomatonTransition;

verus! {

/// A `slotmap::SlotMap` of transition records under `slotmap::DefaultKey`s.
///
/// The verifier does not look inside; what it holds is [`slot_records`].
#[verifier::external_body]
pub struct TransitionSlots {
    inner: SlotMap<DefaultKey, FiniteAutomatonTransition>,
}

/// The records that a slot map holds, each under the 64-bit form of its key
/// (`KeyData::as_ffi`).
pub uninterp spec fn slot_records(slots: TransitionSlots) -> Map<u64, FiniteAutomatonTransition>;

/// Whether `handle` is the 64-bit form of some key: the version half of a key
/// is always odd, and `KeyData::from_ffi` maps such a number back to that key.
pub open spec fn is_handle(handle: u64) -> bool {
    (handle / 0x1_0000_0000) % 2 == 1
}

/// The handles of a listing of entries, in the listing's order.
pub open spec fn handles_of(listing: Seq<(u64, &FiniteAutomatonTransition)>) -> Seq<u64> {
    listing.map_values(|entry: (u64, &FiniteAutomatonTransition)| entry.0)
}

/// The number of records above which `SlotMap::insert` may panic for want of
/// a free slot index.
pub const SLOT_LIMIT: usize = 0xffff_fffe;

impl TransitionSlots {
    /// `SlotMap::new`: a slot map that holds nothing.
    #[verifier::external_body]
    pub(crate) fn new() -> (made: Self)
        ensures
            slot_records(made) == (Map::<u64, FiniteAutomatonTransition>::empty()),
    {
        TransitionSlots { inner: SlotMap::new() }
    }

    /// `SlotMap::len`: the number of records held.
    #[verifier::external_body]
    pub(crate) fn len(&self) -> (count: usize)
        ensures
            count == slot_records(*self).dom().len(),
    {
        self.inner.len()
    }

    /// `SlotMap::insert`: stores `record` under a key that the map does not
    /// hold at the time of the call, and returns that key. The call panics
    /// only when every slot index is taken, so not below [`SLOT_LIMIT`]
    /// records.
    #[verifier::external_body]
    pub(crate) fn insert(&mut self, record: FiniteAutomatonTransition) -> (handle: u64)
        requires
            slot_records(*old(self)).dom().finite(),
            slot_records(*old(self)).dom().len() < SLOT_LIMIT,
        ensures
            is_handle(handle),
            !slot_records(*old(self)).contains_key(handle),
            slot_records(*final(self)) == slot_records(*old(self)).insert(handle, record),
    {
        self.inner.insert(record).data().as_ffi()
    }

    /// `SlotMap::remove`: takes out the record stored under `handle` and
    /// returns it, or returns `None` and changes nothing when there is none.
    #[verifier::external_body]
    pub(crate) fn remove(&mut self, handle: u64) -> (record: Option<FiniteAutomatonTransition>)
        requires
            is_handle(handle),
        ensures
            slot_records(*final(self)) == slot_records(*old(self)).remove(handle),
            record == slot_records(*old(self)).get(handle),
    {
        self.inner.remove(DefaultKey::from(KeyData::from_ffi(handle)))
    }

    /// `SlotMap::contains_key`: whether a record is stored under `handle`.
    #[verifier::external_body]
    pub(crate) fn contains_key(&self, handle: u64) -> (present: bool)
        requires
            is_handle(handle),
        ensures
            present == slot_records(*self).contains_key(handle),
    {
        self.inner.contains_key(DefaultKey::from(KeyData::from_ffi(handle)))
    }

    /// `SlotMap::get`: the record stored under `handle`, if there is one.
    #[verifier::external_body]
    pub(crate) fn get(&self, handle: u64) -> (record: Option<&FiniteAutomatonTransition>)
        requires
            is_handle(handle),
        ensures
            record == match slot_records(*self).get(handle) {
                Some(found) => Some(&found),
                None => None,
            },
    {
        self.inner.get(DefaultKey::from(KeyData::from_ffi(handle)))
    }

    /// `SlotMap::iter`: every record held, once, with its key. The order is
    /// that of the slots and is not stated.
    #[verifier::external_body]
    pub(crate) fn entries(&self) -> (listing: Vec<(u64, &FiniteAutomatonTransition)>)
        ensures
            handles_of(listing@).no_duplicates(),
            handles_of(listing@).to_set() == slot_records(*self).dom(),
            forall|i: int|
                0 <= i < listing@.len() ==> *(#[trigger] listing@[i]).1 == slot_records(
                    *self,
                )[listing@[i].0],
    {
        self.inner.iter().map(|(key, record)| (key.data().as_ffi(), record)).collect()
    }
}

} // verus!
