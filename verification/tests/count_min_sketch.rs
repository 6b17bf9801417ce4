use hash_bench::count_min_sketch::CountMinSketch;

fn sketch(eps: f32, delta: f32) -> CountMinSketch {
    let width = (std::f32::consts::E / eps).ceil() as usize;
    let depth = (1.0_f32 / delta).ln().ceil() as usize;
    CountMinSketch::new(width, depth)
}

#[test]
fn new_sets_expected_dimensions_and_initial_state() {
    let cms = sketch(0.01, 0.1);
    assert_eq!(cms.width, (std::f32::consts::E / 0.01).ceil() as usize);
    assert_eq!(cms.depth, (1.0_f32 / 0.1).ln().ceil() as usize);
    assert!(cms.sketch.iter().all(|row| row.len() == cms.width));
    assert!(cms
        .sketch
        .iter()
        .flat_map(|row| row.iter())
        .all(|&count| count == 0));
}

#[test]
fn estimate_returns_zero_before_any_updates() {
    let cms = sketch(0.01, 0.1);
    assert_eq!(cms.estimate(b"unknown"), 0);
}

#[test]
fn updates_accumulate_frequency_for_same_item() {
    let mut cms = sketch(0.01, 0.1);
    cms.update(b"key", 4);
    cms.update(b"key", 6);
    assert_eq!(cms.estimate(b"key"), 10);
}

#[test]
fn update_with_zero_frequency_keeps_counts_unchanged() {
    let mut cms = sketch(0.01, 0.1);
    cms.update(b"key", 5);
    let before = cms.estimate(b"key");
    cms.update(b"key", 0);
    assert_eq!(cms.estimate(b"key"), before);
}

#[test]
fn handles_empty_items() {
    let mut cms = sketch(0.01, 0.1);
    cms.update(b"", 3);
    assert_eq!(cms.estimate(b""), 3);
    assert_eq!(cms.estimate(b"non-empty"), 0);
}

#[test]
fn collisions_do_not_underestimate_counts() {
    let mut cms = sketch(std::f32::consts::E, 0.1);
    assert_eq!(cms.width, 1);

    cms.update(b"alpha", 5);
    cms.update(b"beta", 3);

    let alpha_estimate = cms.estimate(b"alpha");
    let beta_estimate = cms.estimate(b"beta");

    assert_eq!(alpha_estimate, 8);
    assert_eq!(beta_estimate, 8);
}

#[test]
fn depth_is_one_when_delta_close_to_one() {
    let cms = sketch(0.01, 0.9);
    assert_eq!(cms.depth, 1);
}

#[test]
fn new_sketch_has_the_given_shape() {
    let cms = CountMinSketch::new(272, 3);
    assert_eq!(cms.width, 272);
    assert_eq!(cms.depth, 3);
    assert_eq!(cms.sketch.len(), 3);
    assert!(cms.sketch.iter().all(|row| row.len() == 272));
}

#[test]
fn estimates_never_fall_below_the_true_counts() {
    let mut cms = CountMinSketch::new(8, 3);
    let mut truth = vec![0u32; 50];
    for step in 0..400u32 {
        let item = (step * 7 + step / 3) % 50;
        let freq = step % 5;
        cms.update(&item.to_be_bytes(), freq);
        truth[item as usize] += freq;
    }
    for item in 0..50u32 {
        assert!(cms.estimate(&item.to_be_bytes()) >= truth[item as usize]);
    }
}

#[test]
fn a_sketch_without_rows_estimates_the_largest_count() {
    let mut cms = CountMinSketch::new(0, 0);
    assert_eq!(cms.estimate(b"x"), u32::MAX);
    cms.update(b"x", 3);
    assert_eq!(cms.estimate(b"x"), u32::MAX);
}

#[test]
fn a_hash_stands_for_its_column() {
    let mut cms = CountMinSketch::new(10, 2);
    cms.add_hashed(1, 23, 4);
    assert_eq!(cms.cell_hashed(1, 3), 4);
    assert_eq!(cms.cell_hashed(1, 13), 4);
    assert_eq!(cms.cell_hashed(0, 3), 0);
    assert_eq!(cms.cell_hashed(1, 4), 0);
    cms.add_hashed(1, 3, 6);
    assert_eq!(cms.sketch[1][3], 10);
}

#[test]
fn update_adds_to_the_cells_of_the_seeded_hashes() {
    // murmur3 of "1" under seed 0 is 2484513939
    let mut cms = CountMinSketch::new(1000, 1);
    cms.update(b"1", 7);
    assert_eq!(cms.sketch[0][939], 7);
    assert_eq!(cms.sketch[0].iter().sum::<u32>(), 7);
}

#[test]
fn try_update_refuses_what_would_overflow() {
    let mut cms = CountMinSketch::new(4, 2);
    assert!(cms.try_update(b"a", u32::MAX - 1));
    assert_eq!(cms.estimate(b"a"), u32::MAX - 1);
    assert!(!cms.try_update(b"a", 2));
    assert_eq!(cms.estimate(b"a"), u32::MAX - 1);
    assert!(cms.try_update(b"a", 1));
    assert_eq!(cms.estimate(b"a"), u32::MAX);
    assert!(cms.try_update(b"a", 0));
}
