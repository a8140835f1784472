//! A first-in first-out queue kept in a ring of slots of a key-value store.
//!
//! The queue is the run of slots from `start` up to, and without, `end`,
//! going round at the index type's modulus. A [`RingBufferTransient`] loads
//! the two indices once, works on its own copy of them while items go into
//! and out of the item store, and writes the indices back on commit. A push
//! onto a full queue does not fail: the oldest item gives way.
//!
//! Contracts are stated twice over: on the state ([`RingView`]: indices and
//! slots) and on what the queue holds ([`RingView::queued`], a sequence).
use crate::storage::{slot, ItemStore, RangeState};
use crate::wrapping::{
    distance, index_after, lemma_distance, lemma_index_after, lemma_same_number, lemma_successor,
    WrappingOps,
};
use core::marker::PhantomData;
use vstd::prelude::*;

verus! {

/// The most recent `limit` of `items`: all of them where they are no more.
pub open spec fn newest<Item>(items: Seq<Item>, limit: nat) -> Seq<Item> {
    if items.len() <= limit {
        items
    } else {
        items.skip(items.len() - limit)
    }
}

/// The queue after a push of `item`, where it holds at most `limit` items:
/// `item` comes last, and the oldest item leaves if the queue was full.
pub open spec fn pushed<Item>(queue: Seq<Item>, item: Item, limit: nat) -> Seq<Item> {
    newest(queue.push(item), limit)
}

/// What a pop hands out: the oldest item, or nothing from an empty queue.
pub open spec fn front<Item>(queue: Seq<Item>) -> Option<Item> {
    if queue.len() == 0 {
        None
    } else {
        Some(queue[0])
    }
}

/// The queue after a pop: without its oldest item.
pub open spec fn popped<Item>(queue: Seq<Item>) -> Seq<Item> {
    if queue.len() == 0 {
        queue
    } else {
        queue.drop_first()
    }
}

/// The queue after a push of each of `items` in turn.
pub open spec fn pushed_all<Item>(queue: Seq<Item>, items: Seq<Item>, limit: nat) -> Seq<Item>
    decreases items.len(),
{
    if items.len() == 0 {
        queue
    } else {
        pushed(pushed_all(queue, items.drop_last(), limit), items.last(), limit)
    }
}

/// The queue after `count` pops.
pub open spec fn popped_times<Item>(queue: Seq<Item>, count: nat) -> Seq<Item>
    decreases count,
{
    if count == 0 {
        queue
    } else {
        popped(popped_times(queue, (count - 1) as nat))
    }
}

/// Pushes keep the newest: after any run of pushes the queue holds the most
/// recent `limit` of what it held and what was pushed, in the order of
/// arrival. Older items are gone, the first to arrive first.
pub proof fn lemma_pushes_keep_newest<Item>(queue: Seq<Item>, items: Seq<Item>, limit: nat)
    requires
        queue.len() <= limit,
    ensures
        pushed_all(queue, items, limit) == newest(queue + items, limit),
    decreases items.len(),
{
    if items.len() == 0 {
        assert(queue + items =~= queue);
    } else {
        let earlier = items.drop_last();
        lemma_pushes_keep_newest(queue, earlier, limit);
        assert((queue + earlier).push(items.last()) =~= queue + items);
        assert(newest(newest(queue + earlier, limit).push(items.last()), limit) =~= newest(
            queue + items,
            limit,
        ));
    }
}

/// Pops take from the front: `count` pops leave the queue without its
/// first `count` items, and the pop after them hands out the item that
/// stood at place `count`.
pub proof fn lemma_pops_take_oldest<Item>(queue: Seq<Item>, count: nat)
    ensures
        popped_times(queue, count) == if count <= queue.len() {
            queue.skip(count as int)
        } else {
            Seq::empty()
        },
        count < queue.len() ==> front(popped_times(queue, count)) == Some(queue[count as int]),
        count >= queue.len() ==> front(popped_times(queue, count)).is_none(),
    decreases count,
{
    if count == 0 {
        assert(queue.skip(0) =~= queue);
    } else {
        lemma_pops_take_oldest(queue, (count - 1) as nat);
        if count <= queue.len() {
            assert(queue.skip(count - 1).drop_first() =~= queue.skip(count as int));
        } else if count - 1 == queue.len() {
            assert(queue.skip(count - 1) =~= Seq::<Item>::empty());
        }
    }
}

/// The interface of a ring buffer.
pub trait RingBufferTrait<Item> {
    /// The items in the queue, oldest first.
    spec fn queued(&self) -> Seq<Item>;

    /// The most items that the queue holds at a time.
    spec fn limit(&self) -> nat;

    /// Whether the underlying storage holds every change made so far.
    spec fn committed(&self) -> bool;

    /// The queue never holds more than its limit.
    proof fn lemma_within_limit(&self)
        ensures
            self.queued().len() <= self.limit(),
    ;

    /// Store all changes made in the underlying storage.
    ///
    /// Data is not guaranteed to be consistent before this call.
    fn commit(&mut self)
        ensures
            final(self).committed(),
            final(self).queued() == old(self).queued(),
            final(self).limit() == old(self).limit(),
    ;

    /// Push an item onto the end of the queue.
    fn push(&mut self, i: Item)
        ensures
            final(self).queued() == pushed(old(self).queued(), i, old(self).limit()),
            final(self).limit() == old(self).limit(),
    ;

    /// Pop an item from the start of the queue.
    ///
    /// Returns `None` if the queue is empty.
    fn pop(&mut self) -> (item: Option<Item>)
        ensures
            item == front(old(self).queued()),
            final(self).queued() == popped(old(self).queued()),
            final(self).limit() == old(self).limit(),
            old(self).queued().len() == 0 ==> final(self).committed() == old(self).committed(),
    ;

    /// Return whether the queue is empty.
    fn is_empty(&self) -> (empty: bool)
        ensures
            empty == (self.queued().len() == 0),
    ;
}

/// The state of a ring buffer: its working indices, and what the two stores
/// underneath hold.
#[verifier::reject_recursive_types(Index)]
pub struct RingView<Index, Item> {
    /// The index of the oldest item.
    pub start: Index,
    /// The index one past the newest item.
    pub end: Index,
    /// The pair of indices in the range state.
    pub stored: (Index, Index),
    /// The entries of the item store.
    pub items: Map<Index, Item>,
    /// What a slot of the item store without an entry reads as.
    pub vacant: Item,
}

impl<Index: WrappingOps, Item> RingView<Index, Item> {
    /// The state of a buffer just loaded from stores that hold `stored` and
    /// `items`.
    pub open spec fn load(stored: (Index, Index), items: Map<Index, Item>, vacant: Item) -> Self {
        RingView { start: stored.0, end: stored.1, stored, items, vacant }
    }

    /// The most items that a queue over `Index` holds: one less than there
    /// are indices, since `start == end` stands for the empty queue.
    pub open spec fn limit() -> nat {
        (Index::modulus() - 1) as nat
    }

    /// The items in the queue, oldest first: what the slots from `start` up
    /// to `end` read as.
    pub open spec fn queued(self) -> Seq<Item> {
        Seq::new(
            distance(self.start, self.end),
            |k: int| slot(self.items, self.vacant, index_after(self.start, k as nat)),
        )
    }

    /// Whether the range state holds the working indices.
    pub open spec fn committed(self) -> bool {
        self.stored == (self.start, self.end)
    }

    /// The state after a push: `item` is in the slot at `end`, `end` has
    /// moved on by one, and so has `start` if `end` would else have reached
    /// it. The slot that `start` leaves keeps its entry.
    pub open spec fn push(self, item: Item) -> Self {
        let next = index_after(self.end, 1);
        RingView {
            start: if next == self.start {
                index_after(self.start, 1)
            } else {
                self.start
            },
            end: next,
            items: self.items.insert(self.end, item),
            ..self
        }
    }

    /// What a pop returns: what the slot at `start` reads as, or nothing
    /// where `start == end`.
    pub open spec fn pop_result(self) -> Option<Item> {
        if self.start == self.end {
            None
        } else {
            Some(slot(self.items, self.vacant, self.start))
        }
    }

    /// The state after a pop: the slot at `start` has lost its entry and
    /// `start` has moved on by one; nothing has changed where
    /// `start == end`.
    pub open spec fn pop(self) -> Self {
        if self.start == self.end {
            self
        } else {
            RingView {
                start: index_after(self.start, 1),
                items: self.items.remove(self.start),
                ..self
            }
        }
    }

    /// The state after a commit: the range state holds the working indices.
    pub open spec fn commit(self) -> Self {
        RingView { stored: (self.start, self.end), ..self }
    }

    /// A queue holds no more than `limit()` items, and none exactly where
    /// `start == end`.
    pub proof fn lemma_queued_len(self)
        ensures
            self.queued().len() <= Self::limit(),
            self.queued().len() == 0 <==> self.start == self.end,
    {
        lemma_distance(self.start, self.end);
    }

    /// On the queue, a push is `pushed`.
    pub proof fn lemma_push_queued(self, item: Item)
        ensures
            self.push(item).queued() == pushed(self.queued(), item, Self::limit()),
    {
        let after = self.push(item);
        let next = index_after(self.end, 1);
        let length = distance(self.start, self.end);
        Index::lemma_modulus();
        self.start.lemma_as_nat();
        self.end.lemma_as_nat();
        lemma_distance(self.start, self.end);
        lemma_index_after(self.end, 1);
        lemma_index_after(self.start, 1);
        if next == self.start {
            assert forall|k: int| 0 <= k < length implies after.queued()[k] == self.queued().push(
                item,
            ).skip(1)[k] by {
                lemma_index_after(after.start, k as nat);
                lemma_index_after(self.start, (k + 1) as nat);
                lemma_same_number(
                    index_after(after.start, k as nat),
                    index_after(self.start, (k + 1) as nat),
                );
            }
            assert(after.queued() =~= self.queued().push(item).skip(1));
        } else {
            if next.as_nat() == self.start.as_nat() {
                lemma_same_number(next, self.start);
            }
            assert(after.queued() =~= self.queued().push(item));
        }
    }

    /// On the queue, a pop is `popped`, and it returns `front`.
    pub proof fn lemma_pop_queued(self)
        ensures
            self.pop().queued() == popped(self.queued()),
            self.pop_result() == front(self.queued()),
    {
        let after = self.pop();
        let length = distance(self.start, self.end);
        Index::lemma_modulus();
        self.start.lemma_as_nat();
        self.end.lemma_as_nat();
        lemma_distance(self.start, self.end);
        lemma_index_after(self.start, 1);
        if self.start != self.end {
            assert forall|k: int| 0 <= k < length - 1 implies after.queued()[k]
                == self.queued().drop_first()[k] by {
                lemma_index_after(after.start, k as nat);
                lemma_index_after(self.start, (k + 1) as nat);
                lemma_same_number(
                    index_after(after.start, k as nat),
                    index_after(self.start, (k + 1) as nat),
                );
            }
            assert(after.queued() =~= self.queued().drop_first());
        }
    }

    /// The state after a push of each of `items` in turn.
    pub open spec fn push_all(self, items: Seq<Item>) -> Self
        decreases items.len(),
    {
        if items.len() == 0 {
            self
        } else {
            self.push_all(items.drop_last()).push(items.last())
        }
    }

    /// On the queue, a run of pushes is `pushed_all`: it leaves the newest
    /// `limit()` of what was queued and what was pushed.
    pub proof fn lemma_push_all_queued(self, items: Seq<Item>)
        ensures
            self.push_all(items).queued() == pushed_all(self.queued(), items, Self::limit()),
            self.push_all(items).queued() == newest(self.queued() + items, Self::limit()),
            self.push_all(items).stored == self.stored,
            self.push_all(items).vacant == self.vacant,
        decreases items.len(),
    {
        self.lemma_queued_len();
        lemma_pushes_keep_newest(self.queued(), items, Self::limit());
        if items.len() > 0 {
            self.lemma_push_all_queued(items.drop_last());
            self.push_all(items.drop_last()).lemma_push_queued(items.last());
        }
    }

    /// The state after `count` pops.
    pub open spec fn pop_times(self, count: nat) -> Self
        decreases count,
    {
        if count == 0 {
            self
        } else {
            self.pop_times((count - 1) as nat).pop()
        }
    }

    /// On the queue, a run of pops is `popped_times`, and the pop after it
    /// returns what is then in front.
    pub proof fn lemma_pop_times_queued(self, count: nat)
        ensures
            self.pop_times(count).queued() == popped_times(self.queued(), count),
            self.pop_times(count).pop_result() == front(popped_times(self.queued(), count)),
        decreases count,
    {
        if count > 0 {
            self.lemma_pop_times_queued((count - 1) as nat);
            self.pop_times((count - 1) as nat).lemma_pop_queued();
        }
        self.pop_times(count).lemma_pop_queued();
    }

    /// First in, first out: pushes that the queue has room for put `items`
    /// behind what is queued, in their order; once that is popped, the pops
    /// return `items` in the order of the pushes, and after the last of them
    /// the queue is empty.
    pub proof fn lemma_first_in_first_out(self, items: Seq<Item>, k: nat)
        requires
            self.queued().len() + items.len() <= Self::limit(),
            k < items.len(),
        ensures
            self.push_all(items).queued() == self.queued() + items,
            self.push_all(items).pop_times(self.queued().len() + k).pop_result() == Some(
                items[k as int],
            ),
            self.push_all(items).pop_times(self.queued().len() + items.len()).queued().len() == 0,
    {
        let filled = self.push_all(items);
        self.lemma_push_all_queued(items);
        filled.lemma_pop_times_queued(self.queued().len() + k);
        filled.lemma_pop_times_queued(self.queued().len() + items.len());
        lemma_pops_take_oldest(filled.queued(), self.queued().len() + k);
        lemma_pops_take_oldest(filled.queued(), self.queued().len() + items.len());
    }

    /// Overwriting the oldest: more pushes than the queue holds leave it
    /// full of the last `limit()` items pushed, in their order. Whatever was
    /// queued or pushed before them no pop returns any more.
    pub proof fn lemma_overwrites_oldest(self, items: Seq<Item>)
        requires
            items.len() > Self::limit(),
        ensures
            self.push_all(items).queued() == items.skip(items.len() - Self::limit()),
            self.push_all(items).queued().len() == Self::limit(),
    {
        self.lemma_queued_len();
        self.lemma_push_all_queued(items);
        assert((self.queued() + items).skip(self.queued().len() + items.len() - Self::limit())
            =~= items.skip(items.len() - Self::limit()));
    }

    /// A buffer is committed when loaded, a push or a pop that finds an item
    /// leaves it uncommitted, and neither writes to the range state: until
    /// the next commit the stored indices stay as they were.
    pub proof fn lemma_changes_need_commit(self, item: Item)
        ensures
            Self::load(self.stored, self.items, self.vacant).committed(),
            self.push(item).stored == self.stored,
            self.pop().stored == self.stored,
            self.committed() ==> !self.push(item).committed(),
            self.committed() && self.start != self.end ==> !self.pop().committed(),
            self.start == self.end ==> self.pop() == self,
    {
        Index::lemma_modulus();
        self.start.lemma_as_nat();
        self.end.lemma_as_nat();
        lemma_index_after(self.start, 1);
        lemma_index_after(self.end, 1);
    }

    /// A commit changes neither the queue nor a later commit's outcome.
    pub proof fn lemma_commit(self)
        ensures
            self.commit().committed(),
            self.commit().queued() == self.queued(),
            self.commit().commit() == self.commit(),
            self.committed() ==> self.commit() == self,
    {
    }

    /// What is committed is what a buffer loaded afterwards from the same
    /// stores starts with: the same indices and the same queue.
    pub proof fn lemma_commit_then_load(self)
        ensures
            Self::load(self.commit().stored, self.commit().items, self.commit().vacant)
                == self.commit(),
            self.commit().start == self.start,
            self.commit().end == self.end,
            self.commit().queued() == self.queued(),
    {
    }
}

/// A working copy of a ring buffer's indices, over the two stores that
/// keep the buffer.
///
/// Items go into and out of the item store at once; the indices reach the
/// range state only with [`RingBufferTrait::commit`] or
/// [`RingBufferTransient::into_stores`]. A transient that goes away without
/// either leaves the range state as it found it, and what it pushed or
/// popped is lost to whoever loads the buffer next.
pub struct RingBufferTransient<Item, B, M, Index = u16> where
    B: RangeState<Index>,
    M: ItemStore<Index, Item>,
    Index: WrappingOps,
 {
    start: Index,
    end: Index,
    range: B,
    items: M,
    _phantom: PhantomData<Item>,
}

impl<Item, B, M, Index> View for RingBufferTransient<Item, B, M, Index> where
    B: RangeState<Index>,
    M: ItemStore<Index, Item>,
    Index: WrappingOps,
 {
    type V = RingView<Index, Item>;

    closed spec fn view(&self) -> RingView<Index, Item> {
        RingView {
            start: self.start,
            end: self.end,
            stored: self.range@,
            items: self.items@,
            vacant: self.items.vacant(),
        }
    }
}

impl<Item, B, M, Index> RingBufferTransient<Item, B, M, Index> where
    B: RangeState<Index>,
    M: ItemStore<Index, Item>,
    Index: WrappingOps,
 {
    /// Loads the buffer that the two stores keep: reads the indices from
    /// `range` once.
    pub fn new(range: B, items: M) -> (ring: Self)
        ensures
            ring@ == RingView::load(range@, items@, items.vacant()),
    {
        let (start, end) = range.get();
        RingBufferTransient { start, end, range, items, _phantom: PhantomData }
    }

    /// The range state underneath.
    pub fn range_state(&self) -> (range: &B)
        ensures
            range@ == self@.stored,
    {
        &self.range
    }

    /// The item store underneath.
    pub fn item_store(&self) -> (items: &M)
        ensures
            items@ == self@.items,
            items.vacant() == self@.vacant,
    {
        &self.items
    }

    /// Pushes each of `items` in turn, first to last.
    pub fn push_many(&mut self, items: Vec<Item>)
        ensures
            final(self)@ == old(self)@.push_all(items@),
            final(self)@.queued() == newest(
                old(self)@.queued() + items@,
                RingView::<Index, Item>::limit(),
            ),
    {
        proof {
            self@.lemma_push_all_queued(items@);
        }
        let ghost before = self@;
        let ghost all = items@;
        for item in iter: items
            invariant
                iter.seq() == all,
                self@ == before.push_all(all.take(iter.index() as int)),
        {
            proof {
                assert(all.take(iter.index() + 1).drop_last() =~= all.take(iter.index() as int));
            }
            self.push(item);
        }
        proof {
            assert(all.take(all.len() as int) =~= all);
        }
    }

    /// Ends the work on the buffer: commits, and hands the two stores back.
    pub fn into_stores(self) -> (stores: (B, M))
        ensures
            stores.0@ == self@.commit().stored,
            stores.1@ == self@.commit().items,
            stores.1.vacant() == self@.commit().vacant,
    {
        let mut ring = self;
        ring.commit();
        (ring.range, ring.items)
    }
}

impl<Item, B, M, Index> RingBufferTrait<Item> for RingBufferTransient<Item, B, M, Index> where
    B: RangeState<Index>,
    M: ItemStore<Index, Item>,
    Index: WrappingOps,
 {
    open spec fn queued(&self) -> Seq<Item> {
        self@.queued()
    }

    open spec fn limit(&self) -> nat {
        RingView::<Index, Item>::limit()
    }

    open spec fn committed(&self) -> bool {
        self@.committed()
    }

    proof fn lemma_within_limit(&self) {
        self@.lemma_queued_len();
    }

    fn commit(&mut self)
        ensures
            final(self)@ == old(self)@.commit(),
    {
        self.range.put((self.start, self.end));
    }

    fn push(&mut self, i: Item)
        ensures
            final(self)@ == old(self)@.push(i),
    {
        proof {
            self@.lemma_push_queued(i);
        }
        self.items.insert(self.end, i);
        // The sum wraps around where `end` was the largest index: the slots
        // form a ring.
        let one = Index::from_u8(1);
        let next_index = self.end.wrapping_add(one);
        proof {
            lemma_successor(self.end, next_index);
            next_index.lemma_eq(self.start);
        }
        if next_index == self.start {
            // The queue is full: the oldest item gives way.
            let next_start = self.start.wrapping_add(one);
            proof {
                lemma_successor(self.start, next_start);
            }
            self.start = next_start;
        }
        self.end = next_index;
    }

    fn pop(&mut self) -> (item: Option<Item>)
        ensures
            item == old(self)@.pop_result(),
            final(self)@ == old(self)@.pop(),
            old(self)@.start == old(self)@.end ==> item.is_none() && final(self)@ == old(self)@,
    {
        proof {
            self@.lemma_pop_queued();
            self@.lemma_queued_len();
        }
        if self.is_empty() {
            return None;
        }
        let item = self.items.take(self.start);
        let one = Index::from_u8(1);
        let next_start = self.start.wrapping_add(one);
        proof {
            lemma_successor(self.start, next_start);
        }
        self.start = next_start;
        Some(item)
    }

    fn is_empty(&self) -> (empty: bool)
        ensures
            empty == (self@.start == self@.end),
    {
        proof {
            self@.lemma_queued_len();
            self.start.lemma_eq(self.end);
        }
        self.start == self.end
    }
}

} // verus!
