use hash_bench::bloom_filter::BloomFilter;

#[test]
fn insert_lookup_must_found() {
    let mut b = BloomFilter::new(10, 95, 6);
    b.insert(b"1");
    assert_eq!(b.lookup(b"1"), true);
    assert_eq!(b.lookup(b"2"), false);
    b.insert(b"123");
    assert_eq!(b.lookup(b"123"), true);
}

#[test]
fn new_filter_keeps_its_parameters_and_finds_nothing() {
    let mut b = BloomFilter::new(10, 95, 6);
    assert_eq!(b.n, 10);
    assert_eq!(b.m, 95);
    assert_eq!(b.k, 6);
    assert_eq!(b.lookup(b""), false);
    assert_eq!(b.lookup(b"anything"), false);
    for h in 0..95 {
        assert_eq!(b.test_hashed(h), false);
    }
}

#[test]
fn every_inserted_item_is_found_and_stays_found() {
    let mut b = BloomFilter::new(100, 958, 6);
    let items: Vec<Vec<u8>> = (0..100u32).map(|i| i.to_be_bytes().to_vec()).collect();
    for (i, item) in items.iter().enumerate() {
        b.insert(item);
        for earlier in &items[..=i] {
            assert!(b.lookup(earlier));
        }
    }
}

#[test]
fn a_hash_sets_the_bit_it_stands_for() {
    let mut b = BloomFilter::new(10, 95, 6);
    b.set_hashed(95 + 7);
    assert!(b.test_hashed(7));
    assert!(b.test_hashed(95 * 3 + 7));
    assert!(!b.test_hashed(8));
    assert!(!b.test_hashed(6));
    b.set_hashed(94);
    assert!(b.test_hashed(94));
    assert!(!b.test_hashed(0));
}

#[test]
fn insert_sets_the_bits_of_the_seeded_hashes() {
    // murmur3 of "1" under seed 0 is 2484513939
    let mut b = BloomFilter::new(1, 1000, 1);
    b.insert(b"1");
    assert!(b.test_hashed(2484513939));
    assert!(b.test_hashed(939));
    let mut set = 0;
    for h in 0..1000 {
        if b.test_hashed(h) {
            set += 1;
        }
    }
    assert_eq!(set, 1);
}

#[test]
fn a_filter_without_hash_indices_finds_everything() {
    let mut b = BloomFilter::new(3, 0, 0);
    assert_eq!(b.lookup(b"x"), true);
    b.insert(b"y");
    assert_eq!(b.lookup(b"z"), true);
}
