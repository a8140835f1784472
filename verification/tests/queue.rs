use ringbuffer_queue::memory::{MemoryItems, MemoryRange};
use ringbuffer_queue::pallet::{BufferIndex, BufferIndexDefaultValue, Event, Pallet, ValueStruct};
use ringbuffer_queue::ringbuffer::{RingBufferTrait, RingBufferTransient};
use ringbuffer_queue::storage::{ItemStore, RangeState};

type Ring8 = RingBufferTransient<u64, MemoryRange<u8>, MemoryItems<u8, u64>, u8>;
type Queue = Pallet<MemoryRange<BufferIndex>, MemoryItems<BufferIndex, ValueStruct>>;

fn empty_ring() -> Ring8 {
    RingBufferTransient::new(MemoryRange::new((0, 0)), MemoryItems::new(0))
}

fn ring_from(start: u8) -> Ring8 {
    RingBufferTransient::new(MemoryRange::new((start, start)), MemoryItems::new(0))
}

fn empty_queue() -> Queue {
    Pallet::new(
        MemoryRange::new(BufferIndexDefaultValue()),
        MemoryItems::new(ValueStruct::default()),
    )
}

fn value(integer: i32) -> ValueStruct {
    ValueStruct { integer, boolean: true }
}

#[test]
fn new_reads_the_stored_range() {
    let mut items = MemoryItems::<u8, u64>::new(0);
    items.insert(200, 1);
    items.insert(201, 2);
    let mut ring = RingBufferTransient::new(MemoryRange::new((200u8, 202u8)), items);
    assert!(!ring.is_empty());
    assert_eq!(ring.pop(), Some(1));
    assert_eq!(ring.pop(), Some(2));
    assert_eq!(ring.pop(), None);
    let (range, _) = ring.into_stores();
    assert_eq!(range.get(), (202, 202));
}

#[test]
fn is_empty_tells_whether_start_is_end() {
    let mut ring = empty_ring();
    assert!(ring.is_empty());
    ring.push(5);
    assert!(!ring.is_empty());
    assert_eq!(ring.pop(), Some(5));
    assert!(ring.is_empty());
    let ring = ring_from(77);
    assert!(ring.is_empty());
}

#[test]
fn pops_return_pushes_in_order() {
    let mut ring = empty_ring();
    let pushes: Vec<u64> = (1..=100).map(|n| n * n).collect();
    for item in &pushes {
        ring.push(*item);
    }
    for item in &pushes {
        assert_eq!(ring.pop(), Some(*item));
    }
    assert_eq!(ring.pop(), None);
    assert!(ring.is_empty());
}

#[test]
fn pops_return_pushes_in_order_across_the_wrap() {
    let mut ring = ring_from(250);
    for item in 1..=20u64 {
        ring.push(item);
    }
    ring.commit();
    assert_eq!(ring.range_state().get(), (250, 14));
    for item in 1..=20u64 {
        assert_eq!(ring.pop(), Some(item));
    }
    assert_eq!(ring.pop(), None);
    ring.commit();
    assert_eq!(ring.range_state().get(), (14, 14));
}

#[test]
fn pushes_and_pops_interleave_in_order() {
    let mut ring = empty_ring();
    ring.push(1);
    ring.push(2);
    assert_eq!(ring.pop(), Some(1));
    ring.push(3);
    assert_eq!(ring.pop(), Some(2));
    assert_eq!(ring.pop(), Some(3));
    assert_eq!(ring.pop(), None);
}

#[test]
fn pop_of_an_empty_buffer_changes_nothing() {
    let mut items = MemoryItems::<u8, u64>::new(0);
    items.insert(9, 90);
    let mut ring = RingBufferTransient::<u64, _, _, u8>::new(MemoryRange::new((9u8, 9u8)), items);
    assert_eq!(ring.pop(), None);
    assert_eq!(ring.pop(), None);
    assert!(ring.is_empty());
    // Neither index has moved, and the slot at `start` keeps its entry.
    assert_eq!(ring.item_store().get_or_default(9), 90);
    ring.push(4);
    ring.commit();
    assert_eq!(ring.range_state().get(), (9, 10));
    assert_eq!(ring.item_store().get_or_default(9), 4);

    let mut ring = ring_from(200);
    assert_eq!(ring.pop(), None);
    ring.commit();
    assert_eq!(ring.range_state().get(), (200, 200));
}

#[test]
fn pop_removes_the_item_from_its_slot() {
    let mut ring = empty_ring();
    ring.push(40);
    ring.push(41);
    assert_eq!(ring.item_store().get_or_default(0), 40);
    assert_eq!(ring.pop(), Some(40));
    assert_eq!(ring.item_store().get_or_default(0), 0);
    assert_eq!(ring.item_store().get_or_default(1), 41);
}

#[test]
fn push_onto_a_full_buffer_overwrites_the_oldest() {
    let mut ring = empty_ring();
    for item in 1..=255u64 {
        ring.push(item);
    }
    ring.commit();
    assert_eq!(ring.range_state().get(), (0, 255));
    ring.push(256);
    ring.commit();
    assert_eq!(ring.range_state().get(), (1, 0));
    ring.push(257);
    ring.commit();
    assert_eq!(ring.range_state().get(), (2, 1));
    // The slot that `start` has left keeps what was pushed over it.
    assert_eq!(ring.item_store().get_or_default(0), 257);
    assert_eq!(ring.item_store().get_or_default(1), 2);
    for item in 3..=257u64 {
        assert_eq!(ring.pop(), Some(item));
    }
    assert_eq!(ring.pop(), None);
}

#[test]
fn more_pushes_than_slots_keep_the_newest() {
    let mut ring = ring_from(100);
    let pushes: Vec<u64> = (1..=1000).collect();
    ring.push_many(pushes);
    let mut popped = Vec::new();
    while let Some(item) = ring.pop() {
        popped.push(item);
    }
    let newest: Vec<u64> = (746..=1000).collect();
    assert_eq!(popped.len(), 255);
    assert_eq!(popped, newest);
}

#[test]
fn push_many_is_one_push_after_another() {
    let mut one_by_one = ring_from(3);
    let mut at_once = ring_from(3);
    let pushes: Vec<u64> = (10..=400).collect();
    for item in &pushes {
        one_by_one.push(*item);
    }
    at_once.push_many(pushes);
    one_by_one.commit();
    at_once.commit();
    assert_eq!(one_by_one.range_state().get(), at_once.range_state().get());
    for index in 0..=u8::MAX {
        assert_eq!(
            one_by_one.item_store().get_or_default(index),
            at_once.item_store().get_or_default(index)
        );
    }
    loop {
        let item = one_by_one.pop();
        assert_eq!(item, at_once.pop());
        if item.is_none() {
            break;
        }
    }
}

#[test]
fn push_many_of_nothing_changes_nothing() {
    let mut ring = ring_from(3);
    ring.push(1);
    ring.push_many(Vec::new());
    ring.commit();
    assert_eq!(ring.range_state().get(), (3, 4));
    assert_eq!(ring.pop(), Some(1));
    assert_eq!(ring.pop(), None);
}

#[test]
fn nothing_is_committed_before_commit() {
    let mut ring = empty_ring();
    ring.push(1);
    ring.push(2);
    assert_eq!(ring.range_state().get(), (0, 0));
    assert_eq!(ring.pop(), Some(1));
    assert_eq!(ring.range_state().get(), (0, 0));
    ring.commit();
    assert_eq!(ring.range_state().get(), (1, 2));
}

#[test]
fn commit_twice_is_commit_once() {
    let mut ring = empty_ring();
    ring.push(1);
    ring.commit();
    assert_eq!(ring.range_state().get(), (0, 1));
    ring.commit();
    assert_eq!(ring.range_state().get(), (0, 1));
    assert_eq!(ring.item_store().get_or_default(0), 1);
    assert_eq!(ring.pop(), Some(1));
}

#[test]
fn commit_without_changes_writes_the_range_back() {
    let mut ring = ring_from(42);
    ring.commit();
    assert_eq!(ring.range_state().get(), (42, 42));
    let (range, _) = ring.into_stores();
    assert_eq!(range.get(), (42, 42));
}

#[test]
fn a_new_transient_finds_what_was_committed() {
    let mut ring = ring_from(250);
    for item in 1..=10u64 {
        ring.push(item);
    }
    assert_eq!(ring.pop(), Some(1));
    ring.commit();
    let committed = ring.range_state().get();
    assert_eq!(committed, (251, 4));
    let (range, items) = ring.into_stores();

    let mut reloaded = RingBufferTransient::<u64, _, _, u8>::new(range, items);
    assert_eq!(reloaded.range_state().get(), committed);
    for item in 2..=10u64 {
        assert_eq!(reloaded.pop(), Some(item));
    }
    assert_eq!(reloaded.pop(), None);
    reloaded.commit();
    assert_eq!(reloaded.range_state().get(), (4, 4));
}

#[test]
fn into_stores_commits_like_commit() {
    let mut explicit = empty_ring();
    explicit.push(1);
    explicit.push(2);
    explicit.commit();
    let (explicit_range, explicit_items) = explicit.into_stores();

    let mut implicit = empty_ring();
    implicit.push(1);
    implicit.push(2);
    let (implicit_range, implicit_items) = implicit.into_stores();

    assert_eq!(explicit_range.get(), (0, 2));
    assert_eq!(implicit_range.get(), explicit_range.get());
    for index in 0..=u8::MAX {
        assert_eq!(
            implicit_items.get_or_default(index),
            explicit_items.get_or_default(index)
        );
    }
}

#[test]
fn default_index_has_sixteen_bits() {
    let mut ring: RingBufferTransient<u64, MemoryRange<u16>, MemoryItems<u16, u64>> =
        RingBufferTransient::new(MemoryRange::new((u16::MAX - 1, u16::MAX - 1)), MemoryItems::new(0));
    for item in 1..=300u64 {
        ring.push(item);
    }
    ring.commit();
    assert_eq!(ring.range_state().get(), (u16::MAX - 1, 298));
    for item in 1..=300u64 {
        assert_eq!(ring.pop(), Some(item));
    }
    assert_eq!(ring.pop(), None);
}

#[test]
fn wide_indices_wrap_at_their_own_modulus() {
    let mut ring = RingBufferTransient::<u64, _, _, u64>::new(
        MemoryRange::new((u64::MAX, u64::MAX)),
        MemoryItems::new(0),
    );
    ring.push(1);
    ring.push(2);
    ring.commit();
    assert_eq!(ring.range_state().get(), (u64::MAX, 1));
    assert_eq!(ring.item_store().get_or_default(u64::MAX), 1);
    assert_eq!(ring.item_store().get_or_default(0), 2);
    assert_eq!(ring.pop(), Some(1));
    assert_eq!(ring.pop(), Some(2));
    assert_eq!(ring.pop(), None);

    let mut ring = RingBufferTransient::<u64, _, _, u32>::new(
        MemoryRange::new((u32::MAX, u32::MAX)),
        MemoryItems::new(0),
    );
    ring.push(1);
    ring.commit();
    assert_eq!(ring.range_state().get(), (u32::MAX, 0));
}

#[test]
fn default_range_is_empty_at_zero() {
    assert_eq!(BufferIndexDefaultValue(), (0, 0));
    let queue = empty_queue();
    assert_eq!(queue.range(), (0, 0));
    assert_eq!(queue.get_value(0), ValueStruct { integer: 0, boolean: false });
    assert_eq!(ValueStruct::default(), ValueStruct { integer: 0, boolean: false });
}

#[test]
fn pop_from_an_empty_queue_reports_nothing() {
    let queue = empty_queue();
    let (queue, event) = queue.pop_from_queue();
    assert_eq!(event, None);
    assert_eq!(queue.range(), (0, 0));
}

#[test]
fn add_multiple_of_nothing_changes_nothing() {
    let queue = empty_queue().add_to_queue(1, false);
    let queue = queue.add_multiple(Vec::new(), true);
    assert_eq!(queue.range(), (0, 1));
    assert_eq!(queue.get_value(0), ValueStruct { integer: 1, boolean: false });
}

#[test]
fn each_call_finds_what_the_last_one_left() {
    let queue = empty_queue();
    let queue = queue.add_to_queue(1, true);
    let queue = queue.add_multiple(vec![2, 3], false);
    assert_eq!(queue.range(), (0, 3));
    let (queue, event) = queue.pop_from_queue();
    assert_eq!(event, Some(Event::Popped(1, true)));
    let (queue, event) = queue.pop_from_queue();
    assert_eq!(event, Some(Event::Popped(2, false)));
    let queue = queue.add_to_queue(4, true);
    let (queue, event) = queue.pop_from_queue();
    assert_eq!(event, Some(Event::Popped(3, false)));
    let (queue, event) = queue.pop_from_queue();
    assert_eq!(event, Some(Event::Popped(4, true)));
    let (queue, event) = queue.pop_from_queue();
    assert_eq!(event, None);
    assert_eq!(queue.range(), (4, 4));
}

#[test]
fn with_queue_commits_what_the_closure_did() {
    let queue = empty_queue();
    let (queue, popped) = queue.with_queue(|ring| {
        ring.push(value(1));
        ring.push(value(2));
        ring.pop()
    });
    assert_eq!(popped, Some(value(1)));
    assert_eq!(queue.range(), (1, 2));
    assert_eq!(queue.get_value(1), value(2));
    assert_eq!(queue.get_value(0), ValueStruct::default());
}

#[test]
fn with_queue_commits_like_an_explicit_commit() {
    let (implicit, _) = empty_queue().with_queue(|ring| {
        ring.push(value(1));
        ring.push(value(2));
    });
    let (explicit, _) = empty_queue().with_queue(|ring| {
        ring.push(value(1));
        ring.push(value(2));
        ring.commit();
    });
    let mut by_hand = empty_queue().queue_transient();
    by_hand.push(value(1));
    by_hand.push(value(2));
    by_hand.commit();
    let by_hand_range = by_hand.range_state().get();

    assert_eq!(implicit.range(), (0, 2));
    assert_eq!(implicit.range(), explicit.range());
    assert_eq!(implicit.range(), by_hand_range);
    for index in 0..=u8::MAX {
        assert_eq!(implicit.get_value(index), explicit.get_value(index));
        assert_eq!(implicit.get_value(index), by_hand.item_store().get_or_default(index));
    }
}

#[test]
fn with_queue_commits_when_the_closure_returns_early() {
    let (queue, _) = empty_queue().with_queue(|ring| {
        ring.push(value(1));
        if !ring.is_empty() {
            return;
        }
        ring.push(value(2));
    });
    assert_eq!(queue.range(), (0, 1));
}

#[test]
fn with_queue_commits_when_the_closure_does_nothing() {
    let queue = empty_queue().add_to_queue(1, true);
    let (queue, _) = queue.with_queue(|_| {});
    assert_eq!(queue.range(), (0, 1));
    assert_eq!(queue.get_value(0), value(1));
}

#[test]
fn queue_wraps_past_its_last_slot() {
    let queue = empty_queue();
    let queue = queue.add_to_queue(1, true);
    assert_eq!(queue.range(), (0, 1));
    assert_eq!(queue.get_value(0), value(1));

    let queue = queue.add_multiple(vec![2, 3], true);
    assert_eq!(queue.range(), (0, 3));

    let (queue, event) = queue.pop_from_queue();
    assert_eq!(event, Some(Event::Popped(1, true)));
    assert_eq!(queue.range(), (1, 3));

    // 253 more pushes fill the queue: 255 items from slot 1 round to slot 0.
    let queue = queue.add_multiple((4..=256).collect(), true);
    assert_eq!(queue.range(), (1, 0));

    let mut queue = queue;
    for integer in 2..=256 {
        let (after, event) = queue.pop_from_queue();
        assert_eq!(event, Some(Event::Popped(integer, true)));
        queue = after;
    }
    assert_eq!(queue.range(), (0, 0));
    let (queue, event) = queue.pop_from_queue();
    assert_eq!(event, None);
    assert_eq!(queue.range(), (0, 0));
}

#[test]
fn queue_gives_up_its_oldest_item_when_full() {
    let queue = empty_queue();
    let queue = queue.add_multiple(vec![1, 2, 3], true);
    let (queue, _) = queue.pop_from_queue();
    assert_eq!(queue.range(), (1, 3));

    // The 254th push finds the queue full and pushes item 2 out.
    let queue = queue.add_multiple((4..=257).collect(), true);
    assert_eq!(queue.range(), (2, 1));
    assert_eq!(queue.get_value(0), value(257));
    // Item 2 still lies in its slot, where no pop reaches it.
    assert_eq!(queue.get_value(1), value(2));

    let mut queue = queue;
    for integer in 3..=257 {
        let (after, event) = queue.pop_from_queue();
        assert_eq!(event, Some(Event::Popped(integer, true)));
        queue = after;
    }
    let (queue, event) = queue.pop_from_queue();
    assert_eq!(event, None);
    assert_eq!(queue.range(), (1, 1));
}
