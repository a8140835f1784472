//! The queue as its callers see it: a ring buffer of [`ValueStruct`]s over
//! an 8-bit index, loaded for each call and committed before the call
//! returns.
use crate::ringbuffer::{newest, popped, pushed, RingBufferTrait, RingBufferTransient, RingView};
use crate::storage::{slot, ItemStore, RangeState};
use vstd::prelude::*;

verus! {

/// The index type of the queue: 256 slots, of which 255 hold items at a
/// time.
pub type BufferIndex = u8;

/// The items of the queue.
#[derive(Clone, Copy, PartialEq, Eq, Debug)]
pub struct ValueStruct {
    pub integer: i32,
    pub boolean: bool,
}

impl Default for ValueStruct {
    fn default() -> (value: Self)
        ensures
            value == (ValueStruct { integer: 0, boolean: false }),
    {
        ValueStruct { integer: 0, boolean: false }
    }
}

/// What a call has to report.
#[derive(Clone, Copy, PartialEq, Eq, Debug)]
pub enum Event {
    /// An item left the queue; its two fields.
    Popped(i32, bool),
}

/// The pair of indices of a queue that was never used: it is empty and
/// starts at slot 0.
#[allow(non_snake_case)]
pub fn BufferIndexDefaultValue() -> (range: (BufferIndex, BufferIndex))
    ensures
        range == (0u8, 0u8),
{
    (0, 0)
}

/// The items made of `integers`, each with the flag `boolean`.
pub open spec fn values_of(integers: Seq<i32>, boolean: bool) -> Seq<ValueStruct> {
    Seq::new(integers.len(), |k: int| ValueStruct { integer: integers[k], boolean })
}

/// The event that reports what a pop returned.
pub open spec fn event_of(item: Option<ValueStruct>) -> Option<Event> {
    match item {
        Some(value) => Some(Event::Popped(value.integer, value.boolean)),
        None => None,
    }
}

/// The queue between calls: the two stores that keep it.
///
/// Each call loads a [`RingBufferTransient`] from the stores, works on it
/// and commits it, so that the next call finds what this one left.
pub struct Pallet<B, M> where
    B: RangeState<BufferIndex>,
    M: ItemStore<BufferIndex, ValueStruct>,
 {
    buffer_range: B,
    buffer_map: M,
}

impl<B, M> Pallet<B, M> where
    B: RangeState<BufferIndex>,
    M: ItemStore<BufferIndex, ValueStruct>,
 {
    /// The buffer that a call loads from the stores.
    pub closed spec fn queue(&self) -> RingView<BufferIndex, ValueStruct> {
        RingView::load(self.buffer_range@, self.buffer_map@, self.buffer_map.vacant())
    }

    /// The queue that the two stores keep.
    pub fn new(buffer_range: B, buffer_map: M) -> (pallet: Self)
        ensures
            pallet.queue() == RingView::load(buffer_range@, buffer_map@, buffer_map.vacant()),
    {
        Pallet { buffer_range, buffer_map }
    }

    /// What the slot at `index` reads as.
    pub fn get_value(&self, index: BufferIndex) -> (value: ValueStruct)
        ensures
            value == slot(self.queue().items, self.queue().vacant, index),
    {
        self.buffer_map.get_or_default(index)
    }

    /// The committed pair of indices, `(start, end)`.
    pub fn range(&self) -> (range: (BufferIndex, BufferIndex))
        ensures
            range == (self.queue().start, self.queue().end),
    {
        self.buffer_range.get()
    }

    /// Loads the buffer for one call.
    pub fn queue_transient(self) -> (queue: RingBufferTransient<ValueStruct, B, M, BufferIndex>)
        ensures
            queue@ == self.queue(),
    {
        RingBufferTransient::new(self.buffer_range, self.buffer_map)
    }

    /// Runs `f` on the buffer and commits whatever `f` has done, whether or
    /// not `f` committed itself: the outcome is that of `f` followed by one
    /// call of `commit`. What `f` returns is handed on.
    pub fn with_queue<F, R>(self, f: F) -> (outcome: (Self, R)) where
        F: FnOnce(&mut RingBufferTransient<ValueStruct, B, M, BufferIndex>) -> R,

        requires
            forall|queue: &mut RingBufferTransient<ValueStruct, B, M, BufferIndex>|
                (*queue)@ == self.queue() ==> #[trigger] f.requires((queue,)),
        ensures
            exists|queue: &mut RingBufferTransient<ValueStruct, B, M, BufferIndex>, result: R|
                (*queue)@ == self.queue() && #[trigger] f.ensures((queue,), result)
                    && outcome.0.queue() == (*final(queue))@.commit() && outcome.1 == result,
    {
        let mut queue = self.queue_transient();
        let result = f(&mut queue);
        let (buffer_range, buffer_map) = queue.into_stores();
        (Pallet { buffer_range, buffer_map }, result)
    }

    /// Puts one item at the end of the queue; the oldest item gives way if
    /// the queue is full.
    pub fn add_to_queue(self, integer: i32, boolean: bool) -> (after: Self)
        ensures
            after.queue() == self.queue().push(ValueStruct { integer, boolean }).commit(),
            after.queue().queued() == pushed(
                self.queue().queued(),
                ValueStruct { integer, boolean },
                RingView::<BufferIndex, ValueStruct>::limit(),
            ),
    {
        let item = ValueStruct { integer, boolean };
        proof {
            self.queue().lemma_push_queued(item);
        }
        let push_item = |queue: &mut RingBufferTransient<ValueStruct, B, M, BufferIndex>|
            ensures
                final(queue)@ == old(queue)@.push(item),
            {
                queue.push(item);
            };
        let (after, _) = self.with_queue(push_item);
        after
    }

    /// Puts an item for each of `integers` at the end of the queue, in
    /// their order: the same as one push after another.
    pub fn add_multiple(self, integers: Vec<i32>, boolean: bool) -> (after: Self)
        ensures
            after.queue() == self.queue().push_all(values_of(integers@, boolean)).commit(),
            after.queue().queued() == newest(
                self.queue().queued() + values_of(integers@, boolean),
                RingView::<BufferIndex, ValueStruct>::limit(),
            ),
    {
        let mut values: Vec<ValueStruct> = Vec::new();
        let mut done: usize = 0;
        while done < integers.len()
            invariant
                done <= integers@.len(),
                values@ == values_of(integers@.take(done as int), boolean),
            decreases integers@.len() - done,
        {
            values.push(ValueStruct { integer: integers[done], boolean });
            done = done + 1;
            proof {
                assert(values@ =~= values_of(integers@.take(done as int), boolean));
            }
        }
        proof {
            assert(integers@.take(done as int) =~= integers@);
        }
        let ghost pushes = values@;
        let push_values = |queue: &mut RingBufferTransient<ValueStruct, B, M, BufferIndex>|
            ensures
                final(queue)@ == old(queue)@.push_all(pushes),
            {
                queue.push_many(values);
            };
        let (after, _) = self.with_queue(push_values);
        proof {
            self.queue().lemma_push_all_queued(pushes);
        }
        after
    }

    /// Takes the oldest item out of the queue and reports it; an empty
    /// queue stays as it is and nothing is reported.
    pub fn pop_from_queue(self) -> (outcome: (Self, Option<Event>))
        ensures
            outcome.0.queue() == self.queue().pop().commit(),
            outcome.0.queue().queued() == popped(self.queue().queued()),
            outcome.1 == event_of(self.queue().pop_result()),
    {
        proof {
            self.queue().lemma_pop_queued();
        }
        let pop_item = |queue: &mut RingBufferTransient<ValueStruct, B, M, BufferIndex>| -> (item:
            Option<ValueStruct>)
            ensures
                item == old(queue)@.pop_result(),
                final(queue)@ == old(queue)@.pop(),
            {
                let item = queue.pop();
                item
            };
        let (after, item) = self.with_queue(pop_item);
        let event = match item {
            Some(ValueStruct { integer, boolean }) => Some(Event::Popped(integer, boolean)),
            None => None,
        };
        (after, event)
    }
}

} // verus!
