use hash_bench::quotient_filter::QuotientFilter;


#[test]
fn test_split() {
    let qf = QuotientFilter::new(8, 4);
    let (quotient, remainder) = qf.split(0b111111110000);
    assert_eq!(quotient, 0b11111111);
    assert_eq!(remainder, 0b0000);
}

#[test]
fn test_insert_empty_slot() {
    // Insert into an empty slot
    let mut qf = QuotientFilter::new(4, 4);
    let key = 0b00010001; // quotient=0b0001, remainder=0b0001
    qf.insert(key);

    assert_eq!(qf.entries, 1);

    let (quotient, remainder) = qf.split(key);
    let idx = quotient as usize;
    assert_eq!(qf.filter[idx].remainder(), remainder);
    assert!(qf.filter[idx].is_occupied());
    assert!(!qf.filter[idx].is_continued());
    assert!(!qf.filter[idx].is_shifted());
}

#[test]
fn test_insert_same_quotient_different_remainder() {
    // Insert when slot is already occupied (same quotient, different remainder)
    let mut qf = QuotientFilter::new(4, 4);

    // insert the first key (quotient=0b0001, remainder=0b0001)
    let key1 = 0b00010001;
    qf.insert(key1);

    // insert a key with the same quotient but different remainder (quotient=0b0001, remainder=0b0010)
    let key2 = 0b00010010;
    qf.insert(key2);

    assert_eq!(qf.entries, 2);

    let (quotient, _) = qf.split(key1);
    let idx = quotient as usize;
    assert!(qf.filter[idx].is_occupied());

    // the first remainder is stored in the quotient slot
    assert_eq!(qf.filter[idx].remainder(), 0b0001);
    assert!(!qf.filter[idx].is_continued());

    // the second remainder is stored in the next slot with continued flag set
    assert_eq!(qf.filter[idx + 1].remainder(), 0b0010);
    assert!(qf.filter[idx + 1].is_continued());
    assert!(qf.filter[idx + 1].is_shifted());
}

#[test]
fn test_insert_with_shifting() {
    // Insert when slots are occupied and need to shift remainder positions
    let mut qf = QuotientFilter::new(4, 4);

    let key1 = 0b00010010;
    qf.insert(key1);

    let key2 = 0b00010011;
    qf.insert(key2);

    // this should be inserted between key1 and key2 (sorted by remainder)
    let key3 = 0b00010001;
    qf.insert(key3);

    assert_eq!(qf.entries, 3);

    let idx = 1;
    assert!(qf.filter[idx].is_occupied());

    assert_eq!(qf.filter[idx].remainder(), 0b0001);
    assert_eq!(qf.filter[idx + 1].remainder(), 0b0010);
    assert_eq!(qf.filter[idx + 2].remainder(), 0b0011);

    // the first element should have continued = false
    assert!(!qf.filter[idx].is_continued());
    assert!(qf.filter[idx + 1].is_continued());
    assert!(qf.filter[idx + 2].is_continued());
}

#[test]
fn test_insert_preserves_occupied_bitmap() {
    let mut qf = QuotientFilter::new(4, 4);

    // Insert larger remainder first so the later insert shifts the run head.
    qf.insert(0b0001_0010);
    qf.insert(0b0001_0001);

    assert!(
        qf.filter[1].is_occupied(),
        "home bucket for quotient=1 must remain occupied"
    );
    assert!(
        !qf.filter[2].is_occupied(),
        "inserting only quotient=1 elements must not mark quotient=2 as occupied"
    );
}

#[test]
fn test_resize_expands_capacity() {
    let mut qf = QuotientFilter::new(3, 4); // size = 8

    let initial_keys: Vec<u64> = (0..8).map(|q| (q << qf.r) | 0b0001).collect();
    for key in &initial_keys {
        qf.insert(*key);
    }
    assert_eq!(qf.entries, 8);
    assert_eq!(qf.size, 8);

    qf.resize();

    assert_eq!(qf.size, 16);
    assert_eq!(qf.q, 4);
    for key in &initial_keys {
        assert!(qf.lookup(*key), "key {:x} should survive resize", key);
    }

    let additional_keys: Vec<u64> = (8..16).map(|q| (q << qf.r) | 0b0010).collect();
    for key in &additional_keys {
        qf.insert(*key);
    }

    assert_eq!(qf.entries, 16);
    for key in initial_keys.iter().chain(additional_keys.iter()) {
        assert!(
            qf.lookup(*key),
            "key {:x} should be present after resize and additional inserts",
            key
        );
    }
}

#[test]
fn test_merge_combines_filters() {
    let mut left = QuotientFilter::new(4, 4);
    let mut right = QuotientFilter::new(4, 4);

    let left_keys = vec![0b0001_0001, 0b0010_0010, 0b0011_0011];
    let right_keys = vec![0b0100_0001, 0b0101_0010];

    for key in &left_keys {
        left.insert(*key);
    }
    for key in &right_keys {
        right.insert(*key);
    }

    let merged = left.merge(&right);

    assert_eq!(merged.entries, left.entries + right.entries);

    for key in left_keys.iter().chain(right_keys.iter()) {
        assert!(
            merged.lookup(*key),
            "merged filter should contain {:08b}",
            key
        );
    }

    for key in &left_keys {
        assert!(left.lookup(*key), "left filter must remain unchanged");
    }
    for key in &right_keys {
        assert!(right.lookup(*key), "right filter must remain unchanged");
    }
}

#[test]
fn test_merge_resizes_and_preserves_duplicates() {
    let mut left = QuotientFilter::new(3, 4);
    let mut right = QuotientFilter::new(3, 4);

    let left_keys: Vec<u64> = (0..8).map(|q| (q << left.r) | 0b0001).collect();
    for key in &left_keys {
        left.insert(*key);
    }
    left.insert(left_keys[0]); // duplicate

    let right_keys: Vec<u64> = (0..8).map(|q| ((q as u64) << right.r) | 0b0010).collect();
    for key in &right_keys {
        right.insert(*key);
    }
    right.insert(right_keys[0]); // duplicate

    let merged = left.merge(&right);

    assert_eq!(left.entries, left_keys.len() + 1);
    assert_eq!(right.entries, right_keys.len() + 1);

    assert_eq!(
        merged.entries,
        left.entries + right.entries,
        "merged entries should account for duplicates"
    );
    assert!(
        merged.size >= left.size && merged.size >= right.size,
        "merged filter should be at least as large as inputs"
    );

    for key in left_keys.iter().chain(right_keys.iter()) {
        assert!(
            merged.lookup(*key),
            "merged filter should contain {:08b}",
            key
        );
    }
    assert!(
        merged.lookup(left_keys[0]),
        "duplicate key must be present in merged filter"
    );
}

#[test]
fn test_insert_different_quotients_collision() {
    // Collision with keys having different quotients (cluster formation)
    let mut qf = QuotientFilter::new(4, 4);

    let key1 = 0b00010001;
    qf.insert(key1);
    let key2 = 0b00100010;
    qf.insert(key2);
    let key3 = 0b00010011;
    qf.insert(key3);

    assert_eq!(qf.entries, 3);

    // quotient=0b0001 slot (first remainder)
    assert!(qf.filter[1].is_occupied());
    assert_eq!(qf.filter[1].remainder(), 0b0001);
    assert!(!qf.filter[1].is_shifted());
    assert!(!qf.filter[1].is_continued());

    // quotient=0b0010 slot
    assert!(qf.filter[2].is_occupied());

    // the run of quotient=1 stays contiguous,
    // so filter[2] should contain the second element of quotient=1's run
    assert_eq!(qf.filter[2].remainder(), 0b0011);
    assert!(qf.filter[2].is_shifted());
    assert!(qf.filter[2].is_continued());

    // quotient=0b0010's element is shifted to filter[3]
    assert_eq!(qf.filter[3].remainder(), 0b0010);
    assert!(qf.filter[3].is_shifted());
    assert!(!qf.filter[3].is_continued());
}

#[test]
fn test_insert_duplicate_key() {
    // Insert duplicate keys
    let mut qf = QuotientFilter::new(4, 4);

    let key = 0b00010001;
    qf.insert(key);
    qf.insert(key); // insert the same key again

    // for duplicate keys, entry count becomes 2 (Quotient Filter allows duplicates)
    assert_eq!(qf.entries, 2);

    let idx = 1;
    assert_eq!(qf.filter[idx].remainder(), 0b0001);
    assert_eq!(qf.filter[idx + 1].remainder(), 0b0001);
}

#[test]
fn test_insert_wraparound() {
    // Ring buffer wraparound
    let mut qf = QuotientFilter::new(4, 4); // size 16

    // insert a key with quotient=15 (last slot)
    let key1 = 0b11110001;
    qf.insert(key1);

    // insert another key with quotient=15 (wraparound may occur)
    let key2 = 0b11110010;
    qf.insert(key2);

    assert_eq!(qf.entries, 2);

    let idx = 15;
    assert!(qf.filter[idx].is_occupied());
    assert_eq!(qf.filter[idx].remainder(), 0b0001);

    // next slot wraps around to 0
    assert_eq!(qf.filter[0].remainder(), 0b0010);
    assert!(qf.filter[0].is_shifted());
    assert!(qf.filter[0].is_continued());
}

#[test]
fn test_insert_multiple_runs_with_shift_and_order() {
    let mut qf = QuotientFilter::new(4, 4);

    // quotient=1 run (ascending order)
    qf.insert(0b0001_0001);
    qf.insert(0b0001_0010);

    // quotient=2 run (insert in reverse order to test sorting)
    qf.insert(0b0010_0011);
    qf.insert(0b0010_0001);

    // quotient=3 run (single element)
    qf.insert(0b0011_0010);

    assert_eq!(qf.entries, 5);

    assert!(
        qf.filter[1].is_occupied(),
        "q=1 should set occupied at bucket 1"
    );
    assert!(
        qf.filter[2].is_occupied(),
        "q=2 should set occupied at bucket 2"
    );
    assert!(
        qf.filter[3].is_occupied(),
        "q=3 should set occupied at bucket 3"
    );

    assert_eq!(qf.filter[1].remainder(), 0b0001);
    assert!(!qf.filter[1].is_continued());
    assert!(!qf.filter[1].is_shifted(), "first of q=1 is at home");

    assert_eq!(qf.filter[2].remainder(), 0b0010);
    assert!(qf.filter[2].is_continued());
    assert!(
        qf.filter[2].is_shifted(),
        "q=1 second element must be shifted"
    );

    // q=2 run: index=3,4 → remainders [1,3] (verify ascending order)
    assert_eq!(
        qf.filter[3].remainder(),
        0b0001,
        "q=2 run must be sorted: 1 then 3"
    );
    assert!(!qf.filter[3].is_continued());
    assert!(
        qf.filter[3].is_shifted(),
        "q=2 first element is not at home (home=2)"
    );

    assert_eq!(qf.filter[4].remainder(), 0b0011);
    assert!(qf.filter[4].is_continued());
    assert!(qf.filter[4].is_shifted());

    // q=3 run: index=5 → remainder [2]
    assert_eq!(qf.filter[5].remainder(), 0b0010);
    assert!(!qf.filter[5].is_continued());
    assert!(
        qf.filter[5].is_shifted(),
        "q=3 first element is not at home (home=3)"
    );

    // ---- additional sanity checks (run boundaries and ordering) ----
    // 1) run heads must have is_continued=0
    for &i in &[1, 3, 5] {
        assert!(
            !qf.filter[i].is_continued(),
            "run head must have is_continued=0 at {}",
            i
        );
    }
    // 2) run bodies (non-heads) must have is_continued=1
    for &i in &[2, 4] {
        assert!(
            qf.filter[i].is_continued(),
            "run body must have is_continued=1 at {}",
            i
        );
    }
    // 3) q=2's home (index=2) has occupied=1, but storage position is at 3 or later (= shifted elements exist)
    assert!(qf.filter[2].is_occupied());
    assert_ne!(
        qf.filter[2].remainder(),
        0b0001,
        "index=2 should not store q=2's first element"
    );
}

#[test]
fn test_lookup_empty_filter() {
    let qf = QuotientFilter::new(4, 4);
    let key = 0b00010001;
    assert!(!qf.lookup(key));
}

#[test]
fn test_lookup_simple_hit() {
    let mut qf = QuotientFilter::new(4, 4);
    let key = 0b00010001;
    let (quotient, remainder) = qf.split(key);
    let idx = quotient as usize;

    qf.filter[idx].set_remainder(remainder);
    qf.filter[idx].set_occupied(true);
    qf.filter[idx].set_continued(false);
    qf.filter[idx].set_shifted(false);
    qf.entries = 1;

    assert!(qf.lookup(key));
}

#[test]
fn test_lookup_with_run() {
    let mut qf = QuotientFilter::new(4, 4);
    let quotient = 0b0001;
    let idx = quotient as usize;

    qf.filter[idx].set_remainder(0b0001);
    qf.filter[idx].set_occupied(true);
    qf.filter[idx].set_continued(false);
    qf.filter[idx].set_shifted(false);

    qf.filter[idx + 1].set_remainder(0b0010);
    qf.filter[idx + 1].set_occupied(false);
    qf.filter[idx + 1].set_continued(true);
    qf.filter[idx + 1].set_shifted(true);

    qf.filter[idx + 2].set_remainder(0b0011);
    qf.filter[idx + 2].set_occupied(false);
    qf.filter[idx + 2].set_continued(true);
    qf.filter[idx + 2].set_shifted(true);

    qf.entries = 3;

    let key1 = (quotient << qf.r) | 0b0001;
    let key2 = (quotient << qf.r) | 0b0010;
    let key3 = (quotient << qf.r) | 0b0011;
    let key4 = (quotient << qf.r) | 0b0100; // not in the filter

    assert!(qf.lookup(key1));
    assert!(qf.lookup(key2));
    assert!(qf.lookup(key3));
    assert!(!qf.lookup(key4));
}

#[test]
fn test_lookup_multiple_different_quotients() {
    let mut qf = QuotientFilter::new(4, 4);

    qf.filter[1].set_remainder(0b0001);
    qf.filter[1].set_occupied(true);
    qf.filter[1].set_continued(false);
    qf.filter[1].set_shifted(false);

    qf.filter[3].set_remainder(0b0010);
    qf.filter[3].set_occupied(true);
    qf.filter[3].set_continued(false);
    qf.filter[3].set_shifted(false);

    qf.filter[5].set_remainder(0b0011);
    qf.filter[5].set_occupied(true);
    qf.filter[5].set_continued(false);
    qf.filter[5].set_shifted(false);

    qf.filter[7].set_remainder(0b0100);
    qf.filter[7].set_occupied(true);
    qf.filter[7].set_continued(false);
    qf.filter[7].set_shifted(false);

    qf.entries = 4;

    // Test that each different quotient can be found
    let key1 = (0b0001 << qf.r) | 0b0001;
    let key2 = (0b0011 << qf.r) | 0b0010;
    let key3 = (0b0101 << qf.r) | 0b0011;
    let key4 = (0b0111 << qf.r) | 0b0100;

    assert!(qf.lookup(key1), "quotient=1 should be found");
    assert!(qf.lookup(key2), "quotient=3 should be found");
    assert!(qf.lookup(key3), "quotient=5 should be found");
    assert!(qf.lookup(key4), "quotient=7 should be found");

    // Test that non-existent quotients return false
    let key_missing1 = (0b0010 << qf.r) | 0b0001;
    let key_missing2 = (0b0100 << qf.r) | 0b0010;
    let key_missing3 = (0b0110 << qf.r) | 0b0011;

    assert!(!qf.lookup(key_missing1), "quotient=2 should not be found");
    assert!(!qf.lookup(key_missing2), "quotient=4 should not be found");
    assert!(!qf.lookup(key_missing3), "quotient=6 should not be found");

    // Test that same quotient with different remainder returns false
    let key_wrong_remainder1 = (0b0001 << qf.r) | 0b0010;
    let key_wrong_remainder2 = (0b0011 << qf.r) | 0b0001;

    assert!(
        !qf.lookup(key_wrong_remainder1),
        "quotient=1 with wrong remainder should not be found"
    );
    assert!(
        !qf.lookup(key_wrong_remainder2),
        "quotient=3 with wrong remainder should not be found"
    );
}

#[test]
fn test_lookup_with_insert_single() {
    let mut qf = QuotientFilter::new(4, 4);
    let key = 0b00010001;

    qf.insert(key);
    assert!(qf.lookup(key), "inserted key should be found");

    let non_existent = 0b00010010;
    assert!(
        !qf.lookup(non_existent),
        "non-existent key should not be found"
    );
}

#[test]
fn test_lookup_with_insert_multiple_same_quotient() {
    let mut qf = QuotientFilter::new(4, 4);

    let key1 = 0b00010001;
    let key2 = 0b00010010;
    let key3 = 0b00010011;

    qf.insert(key1);
    qf.insert(key2);
    qf.insert(key3);

    assert!(qf.lookup(key1), "key1 should be found");
    assert!(qf.lookup(key2), "key2 should be found");
    assert!(qf.lookup(key3), "key3 should be found");

    let non_existent = 0b00010100;
    assert!(
        !qf.lookup(non_existent),
        "non-existent key should not be found"
    );
}

#[test]
fn test_lookup_with_insert_multiple_different_quotients() {
    let mut qf = QuotientFilter::new(4, 4);

    let key1 = 0b00010001;
    let key2 = 0b00100010;
    let key3 = 0b00110011;
    let key4 = 0b01000100;

    qf.insert(key1);
    qf.insert(key2);
    qf.insert(key3);
    qf.insert(key4);

    assert!(qf.lookup(key1), "key1 should be found");
    assert!(qf.lookup(key2), "key2 should be found");
    assert!(qf.lookup(key3), "key3 should be found");
    assert!(qf.lookup(key4), "key4 should be found");

    let non_existent1 = 0b01010001;
    let non_existent2 = 0b01100010;
    assert!(
        !qf.lookup(non_existent1),
        "non-existent key1 should not be found"
    );
    assert!(
        !qf.lookup(non_existent2),
        "non-existent key2 should not be found"
    );
}

#[test]
fn test_lookup_with_insert_duplicates() {
    let mut qf = QuotientFilter::new(4, 4);
    let key = 0b00010001;

    qf.insert(key);
    qf.insert(key);
    qf.insert(key);

    assert!(qf.lookup(key), "duplicate key should be found");
    assert_eq!(qf.entries, 3, "should have 3 entries for duplicates");
}

#[test]
fn test_lookup_with_insert_collision_scenario() {
    let mut qf = QuotientFilter::new(4, 4);

    let key1 = 0b00010001;
    let key2 = 0b00100010;
    let key3 = 0b00010011;

    qf.insert(key1);
    qf.insert(key2);
    qf.insert(key3);

    assert!(qf.lookup(key1), "key1 should be found after collisions");
    assert!(qf.lookup(key2), "key2 should be found after collisions");
    assert!(qf.lookup(key3), "key3 should be found after collisions");

    let non_existent1 = 0b00010010;
    let non_existent2 = 0b00100001;
    assert!(
        !qf.lookup(non_existent1),
        "non-existent key1 should not be found"
    );
    assert!(
        !qf.lookup(non_existent2),
        "non-existent key2 should not be found"
    );
}

#[test]
fn test_lookup_with_insert_wraparound_scenario() {
    let mut qf = QuotientFilter::new(4, 4);

    let key1 = 0b11110001;
    let key2 = 0b11110010;
    let key3 = 0b11110011;

    qf.insert(key1);
    qf.insert(key2);
    qf.insert(key3);

    assert!(qf.lookup(key1), "key1 should be found with wraparound");
    assert!(qf.lookup(key2), "key2 should be found with wraparound");
    assert!(qf.lookup(key3), "key3 should be found with wraparound");

    let non_existent = 0b11110100;
    assert!(
        !qf.lookup(non_existent),
        "non-existent key should not be found"
    );
}

#[test]
fn test_lookup_with_insert_complex_pattern() {
    let mut qf = QuotientFilter::new(4, 4);

    let keys = vec![
        0b0001_0001,
        0b0001_0010,
        0b0010_0011,
        0b0010_0001,
        0b0011_0010,
        0b0001_0011,
        0b0100_0001,
    ];

    for &key in &keys {
        qf.insert(key);
    }

    for &key in &keys {
        assert!(qf.lookup(key), "inserted key {:08b} should be found", key);
    }

    let non_existent_keys = vec![
        0b0001_0100,
        0b0010_0010,
        0b0011_0001,
        0b0100_0010,
        0b0101_0001,
    ];

    for &key in &non_existent_keys {
        assert!(
            !qf.lookup(key),
            "non-existent key {:08b} should not be found",
            key
        );
    }
}

#[test]
fn test_resize_rebuilds_filter() {
    let mut qf = QuotientFilter::new(3, 4);
    let keys = vec![
        0b0001_0001,
        0b0001_0010,
        0b0010_0011,
        0b0011_0100,
        0b0111_0101,
        0b0111_0101,
    ];

    for &key in &keys {
        qf.insert(key);
    }

    let old_size = qf.size;
    let old_entries = qf.entries;
    let old_q = qf.q;

    qf.resize();

    assert_eq!(qf.size, old_size * 2, "resize must double the table size");
    assert_eq!(qf.q, old_q + 1, "resize must increase q by one bit");
    assert_eq!(
        qf.entries, old_entries,
        "resize must preserve the number of stored entries"
    );

    for &key in &keys {
        assert!(
            qf.lookup(key),
            "key {:08b} should still be present after resize",
            key
        );
    }

    let new_key = 0b1000_0001;
    qf.insert(new_key);
    assert!(
        qf.lookup(new_key),
        "insert should continue to work after resize"
    );
    assert_eq!(
        qf.entries,
        old_entries + 1,
        "entry count should reflect the newly inserted element"
    );
}

fn linear_has(keys: &[u64], key: u64) -> bool {
    keys.iter().any(|k| *k == key)
}

#[test]
fn new_filter_is_empty() {
    let qf = QuotientFilter::new(6, 3);
    assert_eq!(qf.size, 64);
    assert_eq!(qf.q, 6);
    assert_eq!(qf.r, 3);
    assert_eq!(qf.entries, 0);
    assert_eq!(qf.filter.len(), 64);
    assert!(qf.filter.iter().all(|s| s.is_empty()));
    assert!(qf.collect_keys().is_empty());
}

#[test]
fn split_masks_the_bits_above_the_key_width() {
    let qf = QuotientFilter::new(4, 4);
    assert_eq!(qf.split(0b1_1010_0110), (0b1010, 0b0110));
    assert_eq!(qf.split(u64::MAX), (0b1111, 0b1111));
    assert_eq!(qf.split(0), (0, 0));
    let wide = QuotientFilter::new(1, 63);
    assert_eq!(wide.split(u64::MAX), (1, u64::MAX >> 1));
    let deep = QuotientFilter::new(20, 44);
    assert_eq!(deep.split(u64::MAX), ((1 << 20) - 1, (1 << 44) - 1));
}

#[test]
fn index_steps_wrap_around() {
    let qf = QuotientFilter::new(3, 2);
    assert_eq!(qf.next_index(0), 1);
    assert_eq!(qf.next_index(7), 0);
    assert_eq!(qf.prev_index(0), 7);
    assert_eq!(qf.prev_index(7), 6);
}

#[test]
fn wide_remainders_are_kept_whole() {
    let mut qf = QuotientFilter::new(2, 62);
    let key = (0b10u64 << 62) | ((1u64 << 62) - 1);
    let other = (0b10u64 << 62) | ((1u64 << 61) - 1);
    qf.insert(key);
    assert!(qf.lookup(key));
    assert!(!qf.lookup(other));
    assert_eq!(qf.filter[2].remainder(), (1u64 << 62) - 1);
}

#[test]
fn collected_keys_come_out_in_ascending_order_with_duplicates() {
    let mut qf = QuotientFilter::new(4, 4);
    let keys = [0xf3u64, 0x12, 0xf1, 0x12, 0x00, 0xe9, 0xf1, 0xf0];
    for k in keys {
        qf.insert(k);
    }
    let mut want = keys.to_vec();
    want.sort();
    assert_eq!(qf.collect_keys(), want);
    assert_eq!(qf.entries, 8);
}

#[test]
fn find_run_head_and_visit_run_walk_a_cluster() {
    let mut qf = QuotientFilter::new(4, 4);
    for k in [0x11u64, 0x12, 0x23, 0x21, 0x32] {
        qf.insert(k);
    }
    assert_eq!(qf.find_run_head(1), 1);
    assert_eq!(qf.find_run_head(2), 3);
    assert_eq!(qf.find_run_head(3), 5);
    let mut keys = vec![7u64];
    qf.visit_run(3, 2, &mut keys);
    assert_eq!(keys, vec![7, 0x21, 0x23]);
}

#[test]
fn a_full_table_still_answers_and_then_grows() {
    let mut qf = QuotientFilter::new(2, 4);
    let keys = [0x31u64, 0x32, 0x33, 0x34];
    for k in keys {
        qf.insert(k);
    }
    assert_eq!(qf.size, 4);
    assert_eq!(qf.entries, 4);
    // the run of bucket 3 fills the whole table, wrapping around
    assert_eq!(qf.filter[3].remainder(), 1);
    assert_eq!(qf.filter[0].remainder(), 2);
    assert_eq!(qf.filter[1].remainder(), 3);
    assert_eq!(qf.filter[2].remainder(), 4);
    for k in keys {
        assert!(qf.lookup(k));
    }
    assert!(!qf.lookup(0x35));
    assert!(!qf.lookup(0x21));
    assert_eq!(qf.collect_keys(), keys.to_vec());
    qf.insert(0x35);
    assert_eq!(qf.size, 8);
    assert_eq!(qf.q, 3);
    assert_eq!(qf.entries, 5);
    for k in keys {
        assert!(qf.lookup(k));
    }
    assert!(qf.lookup(0x35));
}

#[test]
fn insert_before_the_head_of_a_later_run_keeps_both_runs() {
    // bucket 2 gets its first remainder while its slot holds one of bucket 1
    // and the slot where its run starts holds the head of the run of bucket 3
    let mut qf = QuotientFilter::new(4, 4);
    for k in [0x15u64, 0x16, 0x37] {
        qf.insert(k);
    }
    qf.insert(0x21);
    for k in [0x15u64, 0x16, 0x37, 0x21] {
        assert!(qf.lookup(k));
    }
    assert!(!qf.lookup(0x27));
    assert!(!qf.lookup(0x31));
    assert_eq!(qf.filter[3].remainder(), 1);
    assert!(qf.filter[3].is_shifted());
    assert!(!qf.filter[3].is_continued());
    assert_eq!(qf.filter[4].remainder(), 7);
    assert!(qf.filter[4].is_shifted());
    assert!(!qf.filter[4].is_continued());
    assert_eq!(qf.collect_keys(), vec![0x15, 0x16, 0x21, 0x37]);
}

#[test]
fn insert_behind_a_smaller_remainder_of_a_later_bucket_is_not_found() {
    // bucket 2 has no run, its slot is taken, and the slot where its run
    // would start holds a smaller remainder of bucket 3: the new remainder
    // is stored behind it, where the walk for bucket 2 does not look
    let mut qf = QuotientFilter::new(4, 4);
    for k in [0x15u64, 0x16, 0x31] {
        qf.insert(k);
    }
    qf.insert(0x27);
    assert_eq!(qf.entries, 4);
    assert_eq!(qf.filter[3].remainder(), 1);
    assert_eq!(qf.filter[4].remainder(), 7);
    assert!(qf.filter[4].is_shifted());
    assert!(!qf.filter[4].is_continued());
    assert!(qf.filter[2].is_occupied());
    assert!(!qf.lookup(0x27));
    // the filter goes on counting and taking keys
    qf.insert(0x91);
    qf.insert(0x27);
    assert_eq!(qf.entries, 6);
    assert!(qf.lookup(0x91));
    assert_eq!(qf.filter.iter().filter(|s| !s.is_empty()).count(), 6);
}

#[test]
fn merge_misplaces_what_insertion_misplaces() {
    let mut a = QuotientFilter::new(4, 4);
    let mut b = QuotientFilter::new(4, 4);
    for k in [0x11u64, 0x12, 0x31] {
        a.insert(k);
    }
    b.insert(0x27);
    assert!(a.lookup(0x31) && b.lookup(0x27));
    let m = a.merge(&b);
    assert_eq!(m.q, 4);
    assert_eq!(m.entries, 4);
    assert_eq!(m.filter.iter().filter(|s| !s.is_empty()).count(), 4);
    assert!(m.lookup(0x11) && m.lookup(0x12) && m.lookup(0x31));
    assert!(!m.lookup(0x27));
    // the other way round every insertion is admitted
    let m2 = b.merge(&a);
    for k in [0x11u64, 0x12, 0x31, 0x27] {
        assert!(m2.lookup(k));
    }
    assert_eq!(m2.collect_keys(), vec![0x11, 0x12, 0x27, 0x31]);
}

#[test]
fn every_inserted_key_is_found_when_keys_come_in_ascending_order() {
    let mut qf = QuotientFilter::new(5, 3);
    let mut keys: Vec<u64> = (0..40u64).map(|i| (i * 5) % 112).collect();
    keys.sort();
    for (i, k) in keys.iter().enumerate() {
        qf.insert(*k);
        assert_eq!(qf.entries, i + 1);
        for earlier in &keys[..=i] {
            assert!(qf.lookup(*earlier));
        }
    }
    assert_eq!(qf.q, 6);
    for probe in 0..512u64 {
        assert_eq!(qf.lookup(probe), linear_has(&keys, probe));
    }
}

#[test]
fn occupied_bits_mark_the_buckets_in_use_and_runs_ascend() {
    let mut qf = QuotientFilter::new(4, 4);
    let keys = [0xe1u64, 0xe5, 0xe3, 0xf2, 0xf0, 0x03, 0xe4];
    for k in keys {
        qf.insert(k);
    }
    for i in 0..16usize {
        let in_use = keys.iter().any(|k| (k >> 4) as usize == i);
        assert_eq!(qf.filter[i].is_occupied(), in_use);
    }
    for i in 0..16usize {
        if qf.filter[i].is_continued() {
            let prev = qf.prev_index(i);
            assert!(qf.filter[prev].remainder() <= qf.filter[i].remainder());
            assert!(qf.filter[i].is_shifted());
        }
    }
    // the cluster starts at slot 14 and wraps around the end of the table
    assert!(!qf.filter[14].is_shifted());
    assert!(!qf.filter[14].is_continued());
    for i in [15usize, 0, 1, 2, 3, 4] {
        assert!(qf.filter[i].is_shifted());
    }
    assert!(qf.filter[5].is_empty());
    let mut want = keys.to_vec();
    want.sort();
    assert_eq!(qf.collect_keys(), want);
}

#[test]
fn resize_keeps_keys_of_the_key_width_only() {
    let mut qf = QuotientFilter::new(3, 4);
    qf.insert(0b1_001_0001);
    assert!(qf.lookup(0b1_001_0001));
    assert!(qf.lookup(0b0_001_0001));
    qf.resize();
    assert!(qf.lookup(0b0_001_0001));
    assert!(!qf.lookup(0b1_001_0001));
    assert_eq!(qf.collect_keys(), vec![0b0_001_0001]);
}

#[test]
fn merge_picks_the_least_size_that_holds_all() {
    let mut a = QuotientFilter::new(2, 4);
    let mut b = QuotientFilter::new(3, 4);
    for k in [0x01u64, 0x11, 0x21] {
        a.insert(k);
    }
    for k in [0x02u64, 0x12, 0x22, 0x32, 0x42, 0x52] {
        b.insert(k);
    }
    let m = a.merge(&b);
    assert_eq!(m.q, 4);
    assert_eq!(m.size, 16);
    assert_eq!(m.entries, 9);
    assert_eq!(
        m.collect_keys(),
        vec![0x01, 0x02, 0x11, 0x12, 0x21, 0x22, 0x32, 0x42, 0x52]
    );
    let small = a.merge(&a);
    assert_eq!(small.q, 3);
    assert_eq!(small.entries, 6);
    assert_eq!(small.collect_keys(), vec![0x01, 0x01, 0x11, 0x11, 0x21, 0x21]);
    assert_eq!(a.collect_keys(), vec![0x01, 0x11, 0x21]);
    let none = QuotientFilter::new(2, 4).merge(&QuotientFilter::new(1, 4));
    assert_eq!(none.q, 2);
    assert_eq!(none.entries, 0);
}
