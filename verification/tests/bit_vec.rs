use scalable_bloom_filter::bit_vec::BitVec;

#[test]
fn bit_vec_new_works() {
    let bits = BitVec::new(0);
    assert_eq!(bits.number_of_bits(), 0);
    assert_eq!(bits.number_of_one_bits(), 0);

    let bits = BitVec::new(10);
    assert_eq!(bits.number_of_bits(), 64);
    assert_eq!(bits.number_of_one_bits(), 0);

    let bits = BitVec::new(100);
    assert_eq!(bits.number_of_bits(), 128);
    assert_eq!(bits.number_of_one_bits(), 0);
}

#[test]
fn bit_vec_insert_and_contains_works() {
    let mut bits = BitVec::new(100);
    assert_eq!(bits.number_of_one_bits(), 0);
    assert_eq!(
        (0..bits.number_of_bits())
            .filter(|&i| bits.contains(i))
            .count(),
        0
    );

    bits.insert(30);
    assert!(bits.contains(30));
    assert_eq!(bits.number_of_one_bits(), 1);
    assert_eq!(
        (0..bits.number_of_bits())
            .filter(|&i| bits.contains(i))
            .count(),
        1
    );

    bits.insert(30);
    assert!(bits.contains(30));
    assert_eq!(bits.number_of_one_bits(), 1);

    for i in 0..bits.number_of_bits() {
        bits.insert(i);
    }
    assert_eq!(bits.number_of_one_bits(), bits.number_of_bits());
    assert_eq!(
        (0..bits.number_of_bits())
            .filter(|&i| bits.contains(i))
            .count(),
        bits.number_of_bits()
    );
}

#[test]
fn bit_vec_rounds_up_to_whole_words() {
    assert_eq!(BitVec::new(1).number_of_bits(), 64);
    assert_eq!(BitVec::new(64).number_of_bits(), 64);
    assert_eq!(BitVec::new(65).number_of_bits(), 128);
    assert_eq!(BitVec::new(128).number_of_bits(), 128);
    assert_eq!(BitVec::new(129).number_of_bits(), 192);
}

#[test]
fn bit_vec_sets_only_the_given_bit() {
    let mut bits = BitVec::new(192);
    for &index in &[0usize, 63, 64, 127, 128, 191] {
        assert!(!bits.contains(index));
        bits.insert(index);
        assert!(bits.contains(index));
    }
    assert_eq!(bits.number_of_one_bits(), 6);
    for index in 0..bits.number_of_bits() {
        let expected = [0usize, 63, 64, 127, 128, 191].contains(&index);
        assert_eq!(bits.contains(index), expected);
    }
}

#[test]
fn bit_vec_counts_each_bit_once() {
    let mut bits = BitVec::new(64);
    bits.insert(5);
    bits.insert(5);
    bits.insert(6);
    bits.insert(5);
    assert_eq!(bits.number_of_one_bits(), 2);
    assert_eq!(bits.number_of_bits(), 64);
}
