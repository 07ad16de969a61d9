use scalable_bloom_filter::bloom_filter::BloomFilter;
use scalable_bloom_filter::hash::{hashes_of, DefaultHasher, NthHash};
use std::hash::Hash;

/// A strategy whose `nth` hash of every value is `nth` times a constant.
struct Stepping(u64);

impl NthHash for Stepping {
    fn nth_hash<T: Hash + ?Sized>(&self, _data: &T, nth: usize) -> u64 {
        self.0 * nth as u64
    }
}

#[test]
fn bloom_filter_new_works() {
    let filter = BloomFilter::<()>::new(128, 4);
    assert_eq!(filter.bits().number_of_bits(), 128 * 4);
    assert_eq!(filter.slice_bitwidth(), 128);
    assert_eq!(filter.number_of_slices(), 4);
}

#[test]
fn bloom_filter_insert_and_contains_works() {
    let mut filter = BloomFilter::new(128, 4);
    let hasher = &DefaultHasher;

    for (i, x) in ["foo", "bar", "baz"].iter().enumerate() {
        assert!(!filter.contains(x, hasher));
        filter.insert(x, hasher);
        assert!(filter.contains(x, hasher));
        assert_eq!(filter.bits().number_of_one_bits(), (i + 1) * 4);
    }
}

#[test]
fn dense_filter_works() {
    let mut filter = BloomFilter::new(128, 4);
    let hasher = &DefaultHasher;
    for i in 0..127 {
        filter.insert(&i, hasher);
        assert!(filter.bits().number_of_one_bits() <= (i + 1) * 4);
    }
    assert!((0..127).all(|i| filter.contains(&i, hasher)));
    assert_ne!(
        filter.bits().number_of_one_bits(),
        filter.bits().number_of_bits()
    );

    // Fills all bits
    for i in 0..1000 {
        filter.insert(&i, hasher);
    }
    assert!(filter.contains(&1001, hasher)); // false positive
    assert_eq!(
        filter.bits().number_of_one_bits(),
        filter.bits().number_of_bits()
    );
}

#[test]
fn bloom_filter_sets_one_bit_in_each_slice() {
    let mut filter = BloomFilter::<str>::new(10, 3);
    assert_eq!(filter.bits().number_of_bits(), 64);
    // slice 0: 7 % 10 = 7; slice 1: 10 + 25 % 10 = 15; slice 2: 20 + 39 % 10 = 29
    filter.insert_hashes(&[7, 25, 39]);
    assert_eq!(filter.bits().number_of_one_bits(), 3);
    for index in 0..64 {
        assert_eq!(filter.bits().contains(index), [7usize, 15, 29].contains(&index));
    }
    assert!(filter.contains_hashes(&[7, 25, 39]));
    assert!(filter.contains_hashes(&[17, 5, 9]));
    assert!(!filter.contains_hashes(&[8, 25, 39]));
    assert!(!filter.contains_hashes(&[7, 26, 39]));
    assert!(!filter.contains_hashes(&[7, 25, 30]));
    // the hashes beyond the number of slices are not looked at
    assert!(filter.contains_hashes(&[7, 25, 39, 1, 2, 3]));
}

#[test]
fn bloom_filter_insert_is_idempotent() {
    let mut filter = BloomFilter::<str>::new(16, 4);
    filter.insert_hashes(&[1, 2, 3, 4]);
    let ones = filter.bits().number_of_one_bits();
    assert_eq!(ones, 4);
    filter.insert_hashes(&[1, 2, 3, 4]);
    assert_eq!(filter.bits().number_of_one_bits(), ones);
    filter.insert_hashes(&[17, 18, 19, 20]);
    assert_eq!(filter.bits().number_of_one_bits(), ones);
}

#[test]
fn bloom_filter_without_slices_contains_everything() {
    let mut filter = BloomFilter::<u32>::new(0, 0);
    assert_eq!(filter.bits().number_of_bits(), 0);
    assert!(filter.contains(&1, &DefaultHasher));
    filter.insert(&1, &DefaultHasher);
    assert_eq!(filter.bits().number_of_one_bits(), 0);
    assert!(filter.contains_hashes(&[]));
}

#[test]
fn bloom_filter_asks_the_strategy_for_each_slice() {
    let mut filter = BloomFilter::<str>::new(8, 4);
    // hashes 0, 3, 6, 9: slots 0, 8 + 3, 16 + 6, 24 + 1
    filter.insert("any", &Stepping(3));
    assert_eq!(filter.bits().number_of_one_bits(), 4);
    for index in 0..64 {
        assert_eq!(filter.bits().contains(index), [0usize, 11, 22, 25].contains(&index));
    }
    assert!(filter.contains("other", &Stepping(3)));
    assert!(filter.contains("other", &Stepping(11)));
    assert!(!filter.contains("other", &Stepping(4)));
}

#[test]
fn default_hasher_tells_slices_and_values_apart() {
    let hasher = DefaultHasher;
    assert_eq!(hasher.nth_hash("foo", 0), hasher.nth_hash("foo", 0));
    assert_ne!(hasher.nth_hash("foo", 0), hasher.nth_hash("foo", 1));
    assert_ne!(hasher.nth_hash("foo", 0), hasher.nth_hash("bar", 0));
    assert_ne!(hasher.nth_hash(&0u64, 0), 0);
    assert_ne!(hasher.nth_hash(&0u64, 0), hasher.nth_hash(&1u64, 0));
}

#[test]
fn hashes_of_asks_for_each_index_in_turn() {
    let hasher = DefaultHasher;
    let hashes = hashes_of(&hasher, "foo", 5);
    assert_eq!(hashes.len(), 5);
    for (nth, &hash) in hashes.iter().enumerate() {
        assert_eq!(hash, hasher.nth_hash("foo", nth));
    }
    assert_eq!(hashes_of(&Stepping(7), "foo", 4), vec![0, 7, 14, 21]);
    assert!(hashes_of(&hasher, "foo", 0).is_empty());
}

#[test]
fn insert_by_value_is_insert_by_its_hashes() {
    let hasher = DefaultHasher;
    let mut by_value = BloomFilter::<str>::new(128, 4);
    let mut by_hashes = BloomFilter::<str>::new(128, 4);
    for word in ["foo", "bar", "baz", "qux"] {
        by_value.insert(word, &hasher);
        by_hashes.insert_hashes(&hashes_of(&hasher, word, 4));
    }
    for index in 0..by_value.bits().number_of_bits() {
        assert_eq!(by_value.bits().contains(index), by_hashes.bits().contains(index));
    }
    assert!(by_hashes.contains("foo", &hasher));
    assert!(by_value.contains_hashes(&hashes_of(&hasher, "qux", 4)));
    assert_eq!(
        by_value.contains("quux", &hasher),
        by_value.contains_hashes(&hashes_of(&hasher, "quux", 4))
    );
}
