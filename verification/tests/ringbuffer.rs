use ringbuffer_queue::memory::{MemoryItems, MemoryRange};
use ringbuffer_queue::ringbuffer::{RingBufferTrait, RingBufferTransient};
use ringbuffer_queue::storage::{ItemStore, RangeState};

type TestIdx = u8;

#[derive(Clone, Copy, PartialEq, Default, Debug)]
struct SomeStruct {
    foo: u64,
    bar: u64,
}

type TestRange = MemoryRange<TestIdx>;
type TestMap = MemoryItems<TestIdx, SomeStruct>;
type Transient = RingBufferTransient<SomeStruct, TestRange, TestMap, TestIdx>;

fn new_test_stores() -> (TestRange, TestMap) {
    (MemoryRange::new((0, 0)), MemoryItems::new(SomeStruct::default()))
}

#[test]
fn simple_push() {
    let (range, items) = new_test_stores();
    let mut ring = Transient::new(range, items);
    ring.push(SomeStruct { foo: 1, bar: 2 });
    ring.commit();
    let start_end = ring.range_state().get();
    assert_eq!(start_end, (0, 1));
    let some_struct = ring.item_store().get_or_default(0);
    assert_eq!(some_struct, SomeStruct { foo: 1, bar: 2 });
}

#[test]
fn drop_does_commit() {
    let (range, items) = new_test_stores();
    let (range, items) = {
        let mut ring = Transient::new(range, items);
        ring.push(SomeStruct { foo: 1, bar: 2 });
        ring.into_stores()
    };
    let start_end = range.get();
    assert_eq!(start_end, (0, 1));
    let some_struct = items.get_or_default(0);
    assert_eq!(some_struct, SomeStruct { foo: 1, bar: 2 });
}

#[test]
fn simple_pop() {
    let (range, items) = new_test_stores();
    let mut ring = Transient::new(range, items);

    for i in 1..(TestIdx::MAX as u64) + 2 {
        ring.push(SomeStruct { foo: 42, bar: i });
    }
    ring.commit();
    let start_end = ring.range_state().get();
    assert_eq!(
        start_end,
        (1, 0),
        "range should be inverted because the index wrapped around"
    );

    let item = ring.pop();
    ring.commit();
    let (start, end) = ring.range_state().get();
    assert_eq!(start..end, 2..0);
    let item = item.expect("an item should be returned");
    assert_eq!(item.bar, 2, "the struct for field `bar = 2`, was placed at index 1");

    let item = ring.pop();
    ring.commit();
    let (start, end) = ring.range_state().get();
    assert_eq!(start..end, 3..0);
    let item = item.expect("an item should be returned");
    assert_eq!(item.bar, 3, "the struct for field `bar = 3`, was placed at index 2");

    for i in 1..4 {
        ring.push(SomeStruct { foo: 21, bar: i });
    }
    ring.commit();
    let start_end = ring.range_state().get();
    assert_eq!(start_end, (4, 3));
}
