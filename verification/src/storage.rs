//! What the ring buffer asks of the key-value store underneath it.
//!
//! The buffer keeps nothing itself. Its two indices live in a
//! [`RangeState`], one persistent pair; its items live in an [`ItemStore`],
//! one slot per index. Both are given here by their contracts only: whoever
//! brings a store implements the traits and owes what their `ensures`
//! clauses say. [`crate::memory`] holds implementations in plain memory,
//! proved against the contracts.
//!
//! A store says what it holds through the spec functions of its trait. They
//! have bodies here only so that a store written outside verified code,
//! which cannot state them, can leave them out; such a store still owes the
//! contracts, for what it really holds. Verified code never reads these
//! bodies: it sees each store's own.
use vstd::prelude::*;

verus! {

/// A single persistent value: the pair `(start, end)` of a buffer's indices.
pub trait RangeState<Index> {
    /// The pair that the state holds.
    open spec fn view(&self) -> (Index, Index) {
        arbitrary()
    }

    /// Reads the pair. A state that was never written holds its initial
    /// pair, so there is always one to read.
    fn get(&self) -> (range: (Index, Index))
        ensures
            range == self@,
    ;

    /// Replaces the pair.
    fn put(&mut self, range: (Index, Index))
        ensures
            final(self)@ == range,
    ;
}

/// A persistent map from index to item in which every slot can be read: a
/// slot without an entry reads as the store's vacant item.
pub trait ItemStore<Index, Item> {
    /// The entries that the store holds.
    open spec fn view(&self) -> Map<Index, Item> {
        arbitrary()
    }

    /// What a slot without an entry reads as. No operation changes it.
    open spec fn vacant(&self) -> Item {
        arbitrary()
    }

    /// Reads the slot at `index` and leaves the store as it is.
    fn get_or_default(&self, index: Index) -> (item: Item)
        ensures
            item == slot(self@, self.vacant(), index),
    ;

    /// Puts `item` into the slot at `index`, over whatever was there.
    fn insert(&mut self, index: Index, item: Item)
        ensures
            final(self)@ == old(self)@.insert(index, item),
            final(self).vacant() == old(self).vacant(),
    ;

    /// Reads the slot at `index` and removes its entry.
    fn take(&mut self, index: Index) -> (item: Item)
        ensures
            item == slot(old(self)@, old(self).vacant(), index),
            final(self)@ == old(self)@.remove(index),
            final(self).vacant() == old(self).vacant(),
    ;
}

/// What the slot at `index` reads as: its entry, or `vacant` without one.
pub open spec fn slot<Index, Item>(entries: Map<Index, Item>, vacant: Item, index: Index) -> Item {
    if entries.dom().contains(index) {
        entries[index]
    } else {
        vacant
    }
}

} // verus!
