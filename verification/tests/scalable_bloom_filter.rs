use scalable_bloom_filter::hash::NthHash;
use scalable_bloom_filter::ScalableBloomFilter;
use std::hash::Hash;

/// The bits and the slices of the first filter for an expected number of elements and a
/// probability of false positives.
fn sized(initial_capacity: usize, error_probability: f64) -> (usize, usize) {
    assert!(0.0 < error_probability && error_probability <= 1.0);
    let initial_bits =
        error_probability.ln().abs() * (initial_capacity as f64) / 2.0f64.ln().powi(2);
    let slice_count = (1.0 / error_probability).log2().ceil() as usize;
    (initial_bits.ceil() as usize, slice_count)
}

/// A strategy that hashes every value to the same number for every slice.
struct Constant(u64);

impl NthHash for Constant {
    fn nth_hash<T: Hash + ?Sized>(&self, _data: &T, _nth: usize) -> u64 {
        self.0
    }
}

#[test]
fn scalable_bloom_filter_new_works() {
    let (initial_bits, slice_count) = sized(18232, 0.001);
    let filter = ScalableBloomFilter::<(), _>::new(initial_bits, slice_count);
    assert_eq!(filter.used_bits(), 0);
    assert_eq!(filter.allocated_bits(), 262144);
}

#[test]
fn scalable_bloom_filter_insert_and_contains_works() {
    let (initial_bits, slice_count) = sized(3, 0.01);
    let mut filter = ScalableBloomFilter::new(initial_bits, slice_count);
    for x in &["foo", "bar", "baz"] {
        assert!(!filter.contains(x));
        filter.insert(x);
        assert!(filter.contains(x));
    }
}

#[test]
fn growth_works() {
    let (initial_bits, slice_count) = sized(32, 0.000001);
    let mut filter = ScalableBloomFilter::new(initial_bits, slice_count);
    let initial_bits = filter.allocated_bits();

    for i in 0..10000 {
        assert!(!filter.contains(&i));
        filter.insert(&i);
        assert!(filter.contains(&i));
    }
    assert!((0..10000).all(|i| filter.contains(&i)));
    assert_ne!(filter.allocated_bits(), initial_bits);
}

#[test]
fn small_filter_holds_what_was_inserted() {
    let (initial_bits, slice_count) = sized(100, 0.01);
    assert_eq!((initial_bits, slice_count), (959, 7));
    let mut filter = ScalableBloomFilter::new(initial_bits, slice_count);
    filter.insert("foo");
    filter.insert("bar");
    filter.insert("baz");
    assert!(filter.contains("foo"));
    assert!(filter.contains("bar"));
    assert!(filter.contains("baz"));
    assert!(!filter.contains("qux"));
}

#[test]
fn fresh_filter_has_the_bits_of_its_slices() {
    // 921 bits over 20 slices: 46 bits a slice, 920 bits, 15 words of 64
    let filter = ScalableBloomFilter::<u64>::new(921, 20);
    assert_eq!(filter.number_of_slices(), 20);
    assert_eq!(filter.allocated_bits(), 960);
    assert_eq!(filter.used_bits(), 0);
    // 29 bits over 7 slices: 4 bits a slice, 28 bits, one word
    let filter = ScalableBloomFilter::<u64>::new(29, 7);
    assert_eq!(filter.allocated_bits(), 64);
    assert_eq!(filter.used_bits(), 0);
}

#[test]
fn filter_grows_when_more_than_half_of_the_bits_are_set() {
    let mut filter = ScalableBloomFilter::<u64>::new(64, 1);
    assert_eq!(filter.allocated_bits(), 64);
    for hash in 0..32u64 {
        filter.insert_hashes(&[hash]);
        assert_eq!(filter.used_bits(), hash as usize + 1);
        assert_eq!(filter.allocated_bits(), 64);
        assert_eq!(filter.number_of_slices(), 1);
    }
    // the 33rd bit: 64 / 33 is below 2
    filter.insert_hashes(&[32]);
    assert_eq!(filter.used_bits(), 33);
    // the new filter has two slices of 128 bits
    assert_eq!(filter.number_of_slices(), 2);
    assert_eq!(filter.allocated_bits(), 64 + 256);
    // what the first filter holds is not inserted again
    filter.insert_hashes(&[32, 5]);
    assert_eq!(filter.used_bits(), 33);
    // anything else goes to the second filter
    filter.insert_hashes(&[40, 5]);
    assert_eq!(filter.used_bits(), 35);
    assert!(filter.contains_hashes(&[40, 5]));
    assert!(filter.contains_hashes(&[40 + 128, 5 + 128]));
    assert!(!filter.contains_hashes(&[40, 6]));
    assert!(!filter.contains_hashes(&[41, 5]));
    assert!(filter.contains_hashes(&[3, 77]));
}

#[test]
fn second_growth_doubles_the_slices_again() {
    let mut filter = ScalableBloomFilter::<u64>::new(64, 1);
    for hash in 0..33u64 {
        filter.insert_hashes(&[hash]);
    }
    assert_eq!(filter.allocated_bits(), 320);
    // The first filter holds the hashes 0 to 32 modulo 64, so the first hash of what reaches
    // the second filter is one of 62 numbers modulo 128. The second hash is free.
    let firsts: Vec<u64> = (33..64).chain(97..128).collect();
    let mut inserted = 0;
    while filter.number_of_slices() == 2 {
        assert!(inserted < 67);
        filter.insert_hashes(&[firsts[inserted % 62], inserted as u64, 0]);
        inserted += 1;
        let expected = if inserted <= 62 { 2 * inserted } else { 62 + inserted };
        assert_eq!(filter.used_bits(), 33 + expected);
    }
    // 62 + 67 = 129 of 256 bits: the ratio falls below 2
    assert_eq!(inserted, 67);
    assert_eq!(filter.number_of_slices(), 3);
    assert_eq!(filter.allocated_bits(), 64 + 256 + 3 * 256);
    assert_eq!(filter.used_bits(), 33 + 129);
}

#[test]
fn insert_is_idempotent() {
    let mut filter = ScalableBloomFilter::<str>::new(400, 4);
    filter.insert("foo");
    let used = filter.used_bits();
    let allocated = filter.allocated_bits();
    assert!(filter.contains("foo"));
    for _ in 0..10 {
        filter.insert("foo");
        assert_eq!(filter.used_bits(), used);
        assert_eq!(filter.allocated_bits(), allocated);
        assert!(filter.contains("foo"));
    }
}

#[test]
fn allocated_bits_never_fall() {
    let mut filter = ScalableBloomFilter::<u32>::new(128, 2);
    let mut allocated = filter.allocated_bits();
    let mut grown = 0;
    for i in 0..2000u32 {
        filter.insert(&i);
        let now = filter.allocated_bits();
        assert!(now >= allocated);
        assert!(filter.used_bits() <= now);
        if now > allocated {
            grown += 1;
        }
        allocated = now;
    }
    assert!(grown >= 1);
    assert!((0..2000u32).all(|i| filter.contains(&i)));
}

#[test]
fn false_positives_stay_near_the_target() {
    let (initial_bits, slice_count) = sized(1000, 0.01);
    let mut filter = ScalableBloomFilter::<u64>::new(initial_bits, slice_count);
    for i in 0..1000u64 {
        filter.insert(&i);
    }
    let false_positives = (1_000_000..1_100_000u64)
        .filter(|i| filter.contains(i))
        .count();
    // the target is one in a hundred; five in a hundred is far off it
    assert!(false_positives < 5_000);
}

#[test]
fn given_strategy_is_used() {
    let mut filter = ScalableBloomFilter::<str, Constant>::with_hasher(64, 2, Constant(5));
    assert!(!filter.contains("foo"));
    filter.insert("foo");
    assert_eq!(filter.used_bits(), 2);
    // every value hashes alike under this strategy
    assert!(filter.contains("bar"));
    let mut other = ScalableBloomFilter::<str, Constant>::with_hasher(64, 2, Constant(6));
    assert!(!other.contains("foo"));
    other.insert_hashes(&[5, 5]);
    assert!(!other.contains("foo"));
    other.insert_hashes(&[6, 6]);
    assert!(other.contains("foo"));
}

#[test]
fn no_false_negatives_across_growth() {
    let mut filter = ScalableBloomFilter::<u64>::new(128, 2);
    let elements: Vec<[u64; 8]> = (0..400u64)
        .map(|i| {
            let mut hashes = [0u64; 8];
            for (nth, hash) in hashes.iter_mut().enumerate() {
                *hash = i.wrapping_mul(0x9e37_79b9_7f4a_7c15).rotate_left(7 * nth as u32 + 1);
            }
            hashes
        })
        .collect();
    let first = filter.allocated_bits();
    for (count, hashes) in elements.iter().enumerate() {
        assert!(filter.number_of_slices() <= 8);
        assert!(filter.can_grow());
        filter.insert_hashes(hashes);
        for earlier in &elements[..=count] {
            assert!(filter.contains_hashes(earlier));
        }
    }
    assert!(filter.number_of_slices() > 2);
    assert!(filter.allocated_bits() > first);
}

#[test]
fn growth_leaves_the_older_filters_as_they_are() {
    let mut filter = ScalableBloomFilter::<u64>::new(64, 1);
    for hash in 0..33u64 {
        filter.insert_hashes(&[hash]);
    }
    assert_eq!(filter.number_of_slices(), 2);
    assert_eq!(filter.used_bits(), 33);
    // the first filter still holds 0 to 32 and nothing else
    for hash in 0..33u64 {
        assert!(filter.contains_hashes(&[hash, 0]));
    }
    for hash in 33..64u64 {
        assert!(!filter.contains_hashes(&[hash, 0]));
    }
    assert_eq!(filter.used_bits(), 33);
}

#[test]
fn small_filter_has_room_to_grow() {
    let filter = ScalableBloomFilter::<u64>::new(959, 7);
    assert!(filter.can_grow());
    assert_eq!(filter.number_of_slices(), 7);
    assert_eq!(filter.allocated_bits(), 960);
}
