use std::sync::atomic::AtomicU8;
use std::sync::atomic::Ordering;
use std::sync::Arc;

use sloth::Cache;
use sloth::CacheError;

#[derive(Clone)]
struct Data<T>(T, Arc<AtomicU8>);

impl<T> Drop for Data<T> {
    fn drop(&mut self) {
        self.1.fetch_add(1, Ordering::Release);
    }
}

#[test]
fn test_cache() {
    let drop_count = Arc::new(AtomicU8::new(0));

    // Create initial data with drop counter
    let data = Data(String::from("first_value"), drop_count.clone());
    let mut cache: Cache<Data<String>> = Cache::new(data, 4).unwrap();

    // Test 1: Get data and verify it works
    let retrieved = cache.get_data();
    assert_eq!(retrieved.0, "first_value");

    // Drop the retrieved data - should increment drop count to 1
    drop(retrieved);
    assert_eq!(drop_count.load(Ordering::Acquire), 1);

    // Test 2: Get data again to ensure cache still works
    let retrieved2 = cache.get_data();
    assert_eq!(retrieved2.0, "first_value");
    drop(retrieved2);
    assert_eq!(drop_count.load(Ordering::Acquire), 2);

    // Test 3: Update the cache with new data
    let new_data = Data(String::from("second_value"), drop_count.clone());
    cache.update(new_data);

    // The update wrote to the next slot (slot 1), replacing an empty cell
    // (no drop count change), then republished the index to slot 1. The old
    // data in slot 0 is still there but no longer published.
    assert_eq!(drop_count.load(Ordering::Acquire), 2);

    // Test 4: Get the updated data - should now return "second_value"
    let retrieved3 = cache.get_data();
    assert_eq!(retrieved3.0, "second_value");
    drop(retrieved3);
    assert_eq!(drop_count.load(Ordering::Acquire), 3);

    // Test 5: Update again - should find slot 2
    let third_data = Data(String::from("third_value"), drop_count.clone());
    cache.update(third_data);
    // Replaces an empty cell in slot 2, no drop count change
    assert_eq!(drop_count.load(Ordering::Acquire), 3);

    // Test 6: Get the latest data
    let retrieved4 = cache.get_data();
    assert_eq!(retrieved4.0, "third_value");
    drop(retrieved4);
    assert_eq!(drop_count.load(Ordering::Acquire), 4);

    // Test 7: Update again - should find slot 3
    let fourth_data = Data(String::from("fourth_value"), drop_count.clone());
    cache.update(fourth_data);
    assert_eq!(drop_count.load(Ordering::Acquire), 4);

    // Verify data is correct
    let retrieved5 = cache.get_data();
    assert_eq!(retrieved5.0, "fourth_value");
    drop(retrieved5);
    assert_eq!(drop_count.load(Ordering::Acquire), 5);

    // Test 8: Update again - should cycle back to slot 0 and replace
    // "first_value"
    let fifth_data = Data(String::from("fifth_value"), drop_count.clone());
    cache.update(fifth_data);
    // This replaces "first_value" in slot 0, so drop count increments to 6
    assert_eq!(drop_count.load(Ordering::Acquire), 6);

    // Verify the new data is readable
    let final_retrieved = cache.get_data();
    assert_eq!(final_retrieved.0, "fifth_value");
    drop(final_retrieved);
    assert_eq!(drop_count.load(Ordering::Acquire), 7);

    // When cache is dropped, all slots with data are dropped:
    // slot 0: "fifth_value" (current) -> 8
    // slot 1: "second_value" (old) -> 9
    // slot 2: "third_value" (old) -> 10
    // slot 3: "fourth_value" (old) -> 11
    drop(cache);
    assert_eq!(drop_count.load(Ordering::Acquire), 11);
}

#[test]
fn single_threaded_sequence() {
    let drops = Arc::new(AtomicU8::new(0));
    let mut cache = Cache::new(Data(String::from("a"), drops.clone()), 4).unwrap();

    let r = cache.get_data();
    assert_eq!(r.0, "a");
    drop(r);
    cache.update(Data(String::from("b"), drops.clone()));
    let r = cache.get_data();
    assert_eq!(r.0, "b");
    drop(r);
    cache.update(Data(String::from("c"), drops.clone()));
    let r = cache.get_data();
    assert_eq!(r.0, "c");
    drop(r);
    cache.update(Data(String::from("d"), drops.clone()));
    cache.update(Data(String::from("e"), drops.clone()));
    let r = cache.get_data();
    assert_eq!(r.0, "e");
    drop(r);

    // Four reads dropped their clones; the fifth write overwrote "a".
    let reads = 4;
    assert_eq!(drops.load(Ordering::Acquire), 1 + reads);

    // Dropping the cache drops the four resident values: "e", "b", "c", "d".
    drop(cache);
    assert_eq!(drops.load(Ordering::Acquire), 1 + reads + 4);
}

#[test]
fn five_installs_with_reads_drop_arithmetic() {
    let drops = Arc::new(AtomicU8::new(0));
    // Five installed values in all: the initial value and four updates, with
    // a read between every pair of installs and one at the end.
    let mut cache = Cache::new(Data(0u8, drops.clone()), 4).unwrap();
    let mut reads: u8 = 0;
    for w in 1..=4u8 {
        let got = cache.get_data();
        assert_eq!(got.0, w - 1);
        drop(got);
        reads += 1;
        cache.update(Data(w, drops.clone()));
    }
    let got = cache.get_data();
    assert_eq!(got.0, 4);
    drop(got);
    reads += 1;
    drop(cache);
    // The first three updates filled empty cells; the fourth overwrote the
    // initial value (one destruction); destruction of the cache dropped the
    // four resident values. Every read's clone was dropped as well: five
    // cell-resident destructions plus one per read.
    assert_eq!(drops.load(Ordering::Acquire), 5 + reads);
}

#[test]
fn destruction_drops_resident_values() {
    for k in 0..=10u8 {
        let drops = Arc::new(AtomicU8::new(0));
        let mut cache = Cache::new(Data(0u8, drops.clone()), 4).unwrap();
        for w in 1..=k {
            cache.update(Data(w, drops.clone()));
        }
        let before = drops.load(Ordering::Acquire);
        drop(cache);
        let after = drops.load(Ordering::Acquire);
        // After k writes, min(k + 1, 4) cells are resident.
        let expected = (k + 1).min(4);
        assert_eq!(after - before, expected);
    }
}

#[test]
fn reader_parked_during_write() {
    let mut cache = Cache::new(String::from("old"), 2).unwrap();

    // A reader enters slot 0 and pauses there.
    let slot = cache.begin_read();
    assert_eq!(slot, 0);
    assert_eq!(cache.reader_count(0), 1);

    // A writer runs its whole path meanwhile: it must pick slot 1.
    cache.update(String::from("new"));
    assert_eq!(cache.published_slot(), 1);

    // The parked reader still sees the value it entered for, untouched.
    let seen = cache.read_slot(slot);
    assert_eq!(seen, "old");
    cache.end_read(slot);
    assert_eq!(cache.reader_count(0), 0);

    // Subsequent reads see the new value.
    assert_eq!(cache.get_data(), "new");
}

#[test]
fn contended_writers() {
    let mut cache = Cache::new(10u32, 4).unwrap();

    // Two writers race for the exclusion flag: exactly one wins.
    let first = cache.try_begin_write();
    let second = cache.try_begin_write();
    assert!(first);
    assert!(!second);

    // The winner completes its write; the loser retries and wins now.
    cache.finish_write(11);
    assert!(cache.try_begin_write());
    cache.finish_write(12);

    // Both writes completed; the final published value is the later one and
    // the earlier one still resides in some slot until overwritten.
    assert_eq!(cache.get_data(), 12);
    assert_eq!(cache.occupied_slots(), 3);
    assert_eq!(cache.published_slot(), 2);
}

#[test]
fn saturation() {
    let mut cache = Cache::new(0u64, 4).unwrap();
    for k in 1..=100u64 {
        assert_eq!(cache.get_data(), k - 1);
        cache.update(k);
        assert_eq!(cache.get_data(), k);
    }
    // All slots are full, all counts are zero, and exactly one slot is named
    // by the published index.
    assert_eq!(cache.occupied_slots(), 4);
    assert!(cache.published_slot() < cache.slot_count());
    for s in 0..cache.slot_count() {
        assert_eq!(cache.reader_count(s), 0);
    }
}

#[test]
fn multiple_readers_share_a_slot() {
    let mut cache = Cache::new(7i64, 4).unwrap();
    let a = cache.begin_read();
    let b = cache.begin_read();
    assert_eq!(a, b);
    assert_eq!(cache.reader_count(a), 2);
    cache.update(8);
    assert_eq!(cache.published_slot(), 1);
    assert_eq!(cache.read_slot(a), 7);
    assert_eq!(cache.read_slot(b), 7);
    cache.end_read(a);
    cache.end_read(b);
    assert_eq!(cache.reader_count(a), 0);
    assert_eq!(cache.get_data(), 8);
}

#[test]
fn writer_skips_occupied_slots() {
    let mut cache = Cache::new(0u8, 4).unwrap();
    let ra = cache.begin_read(); // parked in slot 0
    cache.update(1); // installs into slot 1
    let rb = cache.begin_read(); // parked in slot 1
    cache.update(2); // installs into slot 2
    cache.update(3); // installs into slot 3
    // Slots 0 and 1 hold parked readers; the next write probes past the
    // published slot 3, skips both occupied slots, and reuses slot 2.
    cache.update(4);
    assert_eq!(cache.published_slot(), 2);
    // The parked readers still see the values they entered for.
    assert_eq!(cache.read_slot(ra), 0);
    assert_eq!(cache.read_slot(rb), 1);
    cache.end_read(ra);
    cache.end_read(rb);
    assert_eq!(cache.get_data(), 4);
}

#[test]
fn misconfiguration_rejected() {
    assert!(matches!(Cache::new(5u8, 0), Err(CacheError::InvalidSlotCount)));
    assert!(matches!(Cache::new(5u8, 1), Err(CacheError::InvalidSlotCount)));
    assert!(matches!(Cache::new(5u8, 3), Err(CacheError::InvalidSlotCount)));
    assert!(matches!(Cache::new(5u8, 6), Err(CacheError::InvalidSlotCount)));
    assert!(Cache::new(5u8, 2).is_ok());
    assert!(Cache::new(5u8, 4).is_ok());
    assert!(Cache::new(5u8, 8).is_ok());
}

#[test]
fn slots_fill_in_cyclic_order() {
    let mut cache = Cache::new(0u32, 8).unwrap();
    assert_eq!(cache.occupied_slots(), 1);
    for k in 1..=7u32 {
        cache.update(k);
        assert_eq!(cache.published_slot() as u32, k);
        assert_eq!(cache.occupied_slots(), (k + 1) as usize);
    }
    // The slots are all full now; the next write wraps back to slot 0.
    cache.update(8);
    assert_eq!(cache.published_slot(), 0);
    assert_eq!(cache.occupied_slots(), 8);
}
