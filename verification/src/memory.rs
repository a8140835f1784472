//! A range state and an item store that live in plain memory.
//!
//! They meet the contracts of [`crate::storage`] with nothing underneath but
//! a pair and a vector, for callers that need no persistence and for trying
//! the buffer out.
use crate::storage::{ItemStore, RangeState};
use crate::wrapping::WrappingOps;
use vstd::prelude::*;

verus! {

/// A range state held in memory.
pub struct MemoryRange<Index> {
    range: (Index, Index),
}

impl<Index: Copy> MemoryRange<Index> {
    /// A state that holds `range` until it is written.
    pub fn new(range: (Index, Index)) -> (state: Self)
        ensures
            state@ == range,
    {
        MemoryRange { range }
    }
}

impl<Index: Copy> RangeState<Index> for MemoryRange<Index> {
    closed spec fn view(&self) -> (Index, Index) {
        self.range
    }

    fn get(&self) -> (range: (Index, Index)) {
        self.range
    }

    fn put(&mut self, range: (Index, Index)) {
        self.range = range;
    }
}

/// An item store held in memory: one entry for each occupied slot, no two
/// of them for the same index.
pub struct MemoryItems<Index, Item> {
    entries: Vec<(Index, Item)>,
    vacant: Item,
}

/// Whether `entries` holds an entry for `index` at `position`.
spec fn holds_at<Index, Item>(entries: Seq<(Index, Item)>, index: Index, position: int) -> bool {
    0 <= position < entries.len() && entries[position].0 == index
}

/// The map that a list of entries with distinct indices stands for.
spec fn entries_map<Index, Item>(entries: Seq<(Index, Item)>) -> Map<Index, Item> {
    Map::new(
        |index: Index| exists|position: int| holds_at(entries, index, position),
        |index: Index| entries[choose|position: int| holds_at(entries, index, position)].1,
    )
}

/// No two entries are for the same index.
spec fn distinct<Index, Item>(entries: Seq<(Index, Item)>) -> bool {
    forall|i: int, j: int|
        0 <= i < j < entries.len() ==> (#[trigger] entries[i]).0 != (#[trigger] entries[j]).0
}

/// With distinct indices, the entry found for an index is the one that the
/// map gives.
proof fn lemma_entry_found<Index, Item>(entries: Seq<(Index, Item)>, index: Index, position: int)
    requires
        distinct(entries),
        holds_at(entries, index, position),
    ensures
        entries_map(entries).dom().contains(index),
        entries_map(entries)[index] == entries[position].1,
{
    let chosen = choose|place: int| holds_at(entries, index, place);
    assert(chosen == position) by {
        if chosen < position {
            assert(entries[chosen].0 != entries[position].0);
        } else if position < chosen {
            assert(entries[position].0 != entries[chosen].0);
        }
    }
}

/// Replacing the entry for `index` puts `item` into its slot.
proof fn lemma_replace<Index, Item>(
    entries: Seq<(Index, Item)>,
    index: Index,
    position: int,
    item: Item,
)
    requires
        distinct(entries),
        holds_at(entries, index, position),
    ensures
        distinct(entries.update(position, (index, item))),
        entries_map(entries.update(position, (index, item))) == entries_map(entries).insert(
            index,
            item,
        ),
{
    let after = entries.update(position, (index, item));
    assert forall|i: int, j: int| 0 <= i < j < after.len() implies (#[trigger] after[i]).0 != (
    #[trigger] after[j]).0 by {
        assert(entries[i].0 != entries[j].0);
    }
    assert forall|other: Index|
        entries_map(after).dom().contains(other) == entries_map(entries).insert(
            index,
            item,
        ).dom().contains(other) by {
        if entries_map(after).dom().contains(other) {
            let place = choose|place: int| holds_at(after, other, place);
            assert(holds_at(entries, other, place));
        }
        if entries_map(entries).dom().contains(other) {
            let place = choose|place: int| holds_at(entries, other, place);
            assert(holds_at(after, other, place));
        }
        assert(holds_at(after, index, position));
    }
    assert forall|other: Index| entries_map(after).dom().contains(other) implies entries_map(
        after,
    )[other] == entries_map(entries).insert(index, item)[other] by {
        let place = choose|place: int| holds_at(after, other, place);
        lemma_entry_found(after, other, place);
        if other == index {
            lemma_entry_found(after, index, position);
        } else {
            assert(holds_at(entries, other, place));
            lemma_entry_found(entries, other, place);
        }
    }
    assert(entries_map(after) =~= entries_map(entries).insert(index, item));
}

/// Appending an entry for an index that has none puts `item` into its slot.
proof fn lemma_append<Index, Item>(entries: Seq<(Index, Item)>, index: Index, item: Item)
    requires
        distinct(entries),
        !entries_map(entries).dom().contains(index),
    ensures
        distinct(entries.push((index, item))),
        entries_map(entries.push((index, item))) == entries_map(entries).insert(index, item),
{
    let after = entries.push((index, item));
    let last = entries.len() as int;
    assert forall|i: int, j: int| 0 <= i < j < after.len() implies (#[trigger] after[i]).0 != (
    #[trigger] after[j]).0 by {
        if j == last {
            assert(!holds_at(entries, index, i));
        } else {
            assert(entries[i].0 != entries[j].0);
        }
    }
    assert(holds_at(after, index, last));
    assert forall|other: Index|
        entries_map(after).dom().contains(other) == entries_map(entries).insert(
            index,
            item,
        ).dom().contains(other) by {
        if entries_map(after).dom().contains(other) && other != index {
            let place = choose|place: int| holds_at(after, other, place);
            assert(holds_at(entries, other, place));
        }
        if entries_map(entries).dom().contains(other) {
            let place = choose|place: int| holds_at(entries, other, place);
            assert(holds_at(after, other, place));
        }
    }
    assert forall|other: Index| entries_map(after).dom().contains(other) implies entries_map(
        after,
    )[other] == entries_map(entries).insert(index, item)[other] by {
        let place = choose|place: int| holds_at(after, other, place);
        lemma_entry_found(after, other, place);
        if other == index {
            lemma_entry_found(after, index, last);
        } else {
            assert(holds_at(entries, other, place));
            lemma_entry_found(entries, other, place);
        }
    }
    assert(entries_map(after) =~= entries_map(entries).insert(index, item));
}

/// Moving the last entry into the place of the entry for `index` empties
/// that slot and no other.
proof fn lemma_remove<Index, Item>(entries: Seq<(Index, Item)>, index: Index, position: int)
    requires
        distinct(entries),
        holds_at(entries, index, position),
    ensures
        distinct(entries.update(position, entries.last()).drop_last()),
        entries_map(entries.update(position, entries.last()).drop_last()) == entries_map(
            entries,
        ).remove(index),
{
    let after = entries.update(position, entries.last()).drop_last();
    let last = entries.len() - 1;
    let origin = |place: int|
        if place == position {
            last
        } else {
            place
        };
    assert forall|place: int| 0 <= place < after.len() implies after[place] == entries[origin(
        place,
    )] by {}
    assert forall|i: int, j: int| 0 <= i < j < after.len() implies (#[trigger] after[i]).0 != (
    #[trigger] after[j]).0 by {
        let a = origin(i);
        let b = origin(j);
        if a < b {
            assert(entries[a].0 != entries[b].0);
        } else {
            assert(entries[b].0 != entries[a].0);
        }
    }
    assert forall|other: Index|
        entries_map(after).dom().contains(other) == entries_map(entries).remove(
            index,
        ).dom().contains(other) by {
        if entries_map(after).dom().contains(other) {
            let place = choose|place: int| holds_at(after, other, place);
            assert(holds_at(entries, other, origin(place)));
            if other == index {
                let a = origin(place);
                if a < position {
                    assert(entries[a].0 != entries[position].0);
                } else {
                    assert(entries[position].0 != entries[a].0);
                }
            }
        }
        if entries_map(entries).dom().contains(other) && other != index {
            let place = choose|place: int| holds_at(entries, other, place);
            let moved = if place == last {
                position
            } else {
                place
            };
            assert(holds_at(after, other, moved));
        }
    }
    assert forall|other: Index| entries_map(after).dom().contains(other) implies entries_map(
        after,
    )[other] == entries_map(entries).remove(index)[other] by {
        let place = choose|place: int| holds_at(after, other, place);
        lemma_entry_found(after, other, place);
        assert(holds_at(entries, other, origin(place)));
        lemma_entry_found(entries, other, origin(place));
    }
    assert(entries_map(after) =~= entries_map(entries).remove(index));
}

impl<Index, Item> MemoryItems<Index, Item> {
    #[verifier::type_invariant]
    spec fn well_formed(self) -> bool {
        distinct(self.entries@)
    }
}

impl<Index: WrappingOps, Item: Copy> MemoryItems<Index, Item> {
    /// A store without entries, whose slots all read as `vacant`.
    pub fn new(vacant: Item) -> (store: Self)
        ensures
            store@ == Map::<Index, Item>::empty(),
            store.vacant() == vacant,
    {
        let store = MemoryItems { entries: Vec::new(), vacant };
        assert(entries_map(store.entries@) =~= Map::<Index, Item>::empty());
        store
    }

    /// Where the entry for `index` is, if there is one.
    fn position(&self, index: Index) -> (found: Option<usize>)
        ensures
            match found {
                Some(position) => holds_at(self.entries@, index, position as int),
                None => !self@.dom().contains(index),
            },
    {
        let mut i: usize = 0;
        while i < self.entries.len()
            invariant
                i <= self.entries@.len(),
                forall|position: int| 0 <= position < i ==> !holds_at(self.entries@, index, position),
            decreases self.entries@.len() - i,
        {
            proof {
                self.entries[i as int].0.lemma_eq(index);
            }
            if self.entries[i].0 == index {
                return Some(i);
            }
            i = i + 1;
        }
        None
    }
}

impl<Index: WrappingOps, Item: Copy> ItemStore<Index, Item> for MemoryItems<Index, Item> {
    closed spec fn view(&self) -> Map<Index, Item> {
        entries_map(self.entries@)
    }

    closed spec fn vacant(&self) -> Item {
        self.vacant
    }

    fn get_or_default(&self, index: Index) -> (item: Item) {
        proof {
            use_type_invariant(self);
        }
        match self.position(index) {
            Some(position) => {
                proof {
                    lemma_entry_found(self.entries@, index, position as int);
                }
                self.entries[position].1
            },
            None => self.vacant,
        }
    }

    fn insert(&mut self, index: Index, item: Item) {
        proof {
            use_type_invariant(&*self);
        }
        let found = self.position(index);
        let mut entries = Vec::new();
        std::mem::swap(&mut entries, &mut self.entries);
        match found {
            Some(position) => {
                proof {
                    lemma_replace(entries@, index, position as int, item);
                }
                entries.set(position, (index, item));
            },
            None => {
                proof {
                    lemma_append(entries@, index, item);
                }
                entries.push((index, item));
            },
        }
        self.entries = entries;
    }

    fn take(&mut self, index: Index) -> (item: Item) {
        proof {
            use_type_invariant(&*self);
        }
        match self.position(index) {
            Some(position) => {
                let mut entries = Vec::new();
                std::mem::swap(&mut entries, &mut self.entries);
                proof {
                    lemma_entry_found(entries@, index, position as int);
                    lemma_remove(entries@, index, position as int);
                }
                let (_, item) = entries.swap_remove(position);
                self.entries = entries;
                item
            },
            None => {
                assert(self@ =~= self@.remove(index));
                self.vacant
            },
        }
    }
}

} // verus!
