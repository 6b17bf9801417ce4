use hash_bench::hash_ring::{HashRing, HashRingInterface, RingError};

fn ring_5_with(nodes: &[i64], resources: &[i64]) -> HashRing {
    let mut h = HashRing::new(5);
    for n in nodes {
        assert_eq!(h.add_node(*n), Ok(()));
    }
    for r in resources {
        assert_eq!(h.add_resource(*r), Ok(()));
    }
    h
}

fn pairs(keys: &[i64]) -> Vec<(i64, i64)> {
    keys.iter().map(|k| (*k, *k)).collect()
}

#[test]
fn distance_ring_5() {
    let h = HashRing::new(5);
    assert_eq!(h.distance(0, 5), 5);
    assert_eq!(h.distance(5, 12), 7);
    assert_eq!(h.distance(12, 32), 20);
    assert_eq!(h.distance(5, 18), 13);
    assert_eq!(h.distance(29, 5), 8);
    assert_eq!(h.distance(5, 5), 0);
    assert_eq!(h.distance(29, 12), 15);
    assert_eq!(h.distance(5, 29), 24);
    assert_eq!(h.distance(12, 24), 12);
    assert_eq!(h.distance(18, 24), 6);
}

#[test]
fn hash_ring_add_node_lookup() {
    let mut h = HashRing::new(5);
    let _ = h.add_node(3);
    let _node_ref = h.lookup(3);
}

#[test]
fn multiple_add_node_lookup() {
    let mut h = HashRing::new(5);
    let _ = h.add_node(5);
    let _ = h.add_node(12);
    let _ = h.add_node(18);
    let _ = h.add_node(29);
    let lookup_5 = h.lookup(5);
    assert!(lookup_5.is_some());
    if let Some(node) = lookup_5 {
        assert_eq!(*node.value(), 5);
    }
    let want = vec![5, 12, 18, 29];
    let got = h.nodes();
    assert_eq!(want, got);
}

#[test]
fn add_resource() {
    let mut h = HashRing::new(5);
    let _ = h.add_node(12);
    let _ = h.add_node(18);
    let _ = h.add_resource(24);
    let _ = h.add_resource(21);
    let _ = h.add_resource(16);
    let _ = h.add_resource(23);
    let _ = h.add_resource(2);
    let _ = h.add_resource(29);
    let _ = h.add_resource(28);
    let _ = h.add_resource(7);
    let _ = h.add_resource(10);
    assert_eq!(h.resources().len(), 2);
    assert_eq!(h.resources().get(&12).unwrap().len(), 8);
    assert_eq!(h.resources().get(&18).unwrap().len(), 1);
    assert_eq!(h.resources().get(&18), Some(&vec![(16, 16)]));
    assert_eq!(
        h.resources().get(&12),
        Some(&vec![
            (2, 2),
            (7, 7),
            (10, 10),
            (21, 21),
            (23, 23),
            (24, 24),
            (28, 28),
            (29, 29)
        ])
    );
}

#[test]
fn move_resource() {
    let mut h = HashRing::new(5);
    let _ = h.add_node(12);
    let _ = h.add_node(18);
    let _ = h.add_resource(24);
    let _ = h.add_resource(21);
    let _ = h.add_resource(16);
    let _ = h.add_resource(23);
    let _ = h.add_resource(2);
    let _ = h.add_resource(29);
    let _ = h.add_resource(28);
    let _ = h.add_resource(7);
    let _ = h.add_resource(10);
    let _ = h.move_resource(12, 18, true);
    assert_eq!(h.resources().get(&18).unwrap().len(), 0);
    assert_eq!(h.resources().get(&12).unwrap().len(), 9);
    assert_eq!(h.resources().get(&18), Some(&vec![]));
    assert_eq!(
        h.resources().get(&12),
        Some(&vec![
            (2, 2),
            (7, 7),
            (10, 10),
            (16, 16),
            (21, 21),
            (23, 23),
            (24, 24),
            (28, 28),
            (29, 29)
        ])
    );
}

#[test]
fn add_resource_with_resource_move() {
    let mut h = HashRing::new(5);
    let _ = h.add_node(12);
    let _ = h.add_node(18);
    let _ = h.add_resource(24);
    let _ = h.add_resource(21);
    let _ = h.add_resource(16);
    let _ = h.add_resource(23);
    let _ = h.add_resource(2);
    let _ = h.add_resource(29);
    let _ = h.add_resource(28);
    let _ = h.add_resource(7);
    let _ = h.add_resource(10);
    assert_eq!(h.resources().get(&18).unwrap().len(), 1);
    assert_eq!(h.resources().get(&12).unwrap().len(), 8);
    let _ = h.add_node(5);
    let _ = h.add_node(27);
    let _ = h.add_node(30);
    assert_eq!(h.resources().get(&5).unwrap().len(), 1);
    assert_eq!(h.resources().get(&12).unwrap().len(), 2);
    assert_eq!(h.resources().get(&18).unwrap().len(), 1);
    assert_eq!(h.resources().get(&27).unwrap().len(), 3);
    assert_eq!(h.resources().get(&30).unwrap().len(), 2);
    assert_eq!(h.resources().get(&5), Some(&vec![(2, 2)]));
    assert_eq!(h.resources().get(&12), Some(&vec![(7, 7), (10, 10)]));
    assert_eq!(h.resources().get(&18), Some(&vec![(16, 16)]));
    assert_eq!(
        h.resources().get(&27),
        Some(&vec![(21, 21), (23, 23), (24, 24)])
    );
    assert_eq!(h.resources().get(&30), Some(&vec![(28, 28), (29, 29)]));
    assert_eq!(h.resources().get(&18), Some(&vec![(16, 16)]));

    h.remove_node(12);
    assert_eq!(h.resources().get(&5).unwrap().len(), 1);
    assert_eq!(h.resources().get(&18).unwrap().len(), 3);
    assert_eq!(h.resources().get(&27).unwrap().len(), 3);
    assert_eq!(h.resources().get(&30).unwrap().len(), 2);
    assert_eq!(h.resources().get(&5), Some(&vec![(2, 2)]));
    assert_eq!(
        h.resources().get(&18),
        Some(&vec![(7, 7), (10, 10), (16, 16)])
    );
    assert_eq!(
        h.resources().get(&27),
        Some(&vec![(21, 21), (23, 23), (24, 24)])
    );
    assert_eq!(h.resources().get(&30), Some(&vec![(28, 28), (29, 29)]));
}

#[test]
fn new_ring_spans_two_to_the_k_positions() {
    let h = HashRing::new(5);
    assert_eq!(h.min, 0);
    assert_eq!(h.max, 31);
    assert!(h.legal_range(0));
    assert!(h.legal_range(31));
    assert!(!h.legal_range(32));
    assert!(!h.legal_range(-1));
    assert_eq!(h.nodes(), Vec::<i64>::new());
    let wide = HashRing::new(62);
    assert_eq!(wide.max, (1i64 << 62) - 1);
    let narrow = HashRing::new(0);
    assert_eq!(narrow.max, 0);
}

#[test]
fn distance_is_zero_to_itself_and_complements_the_way_back() {
    let h = HashRing::new(5);
    for a in 0..32 {
        assert_eq!(h.distance(a, a), 0);
        for b in 0..32 {
            if a != b {
                assert_eq!(h.distance(a, b) + h.distance(b, a), 32);
            }
        }
    }
}

#[test]
fn nodes_are_kept_in_ascending_order_whatever_the_order_of_adding() {
    let h = ring_5_with(&[18, 5, 29, 12, 0, 31], &[]);
    assert_eq!(h.nodes(), vec![0, 5, 12, 18, 29, 31]);
    assert_eq!(h.get_head_value(), 0);
    let mut at = h.head();
    let mut seen = Vec::new();
    for _ in 0..6 {
        seen.push(h.get_node_value(&at));
        at = h.get_next_node_ref(&at);
    }
    assert_eq!(seen, vec![0, 5, 12, 18, 29, 31]);
    assert_eq!(at, h.head());
    assert_eq!(h.get_prev_node_ref(&h.head()), Some(5));
    assert_eq!(h.get_next_value(&Some(5)), 0);
}

#[test]
fn lookup_returns_the_nearest_node_going_forward() {
    let h = ring_5_with(&[5, 12, 18, 29], &[]);
    for r in 0..32i64 {
        let found = *h.lookup(r).unwrap().value();
        let best = [5i64, 12, 18, 29]
            .iter()
            .copied()
            .min_by_key(|n| h.distance(r, *n))
            .unwrap();
        assert_eq!(found, best);
    }
    assert_eq!(*h.lookup(30).unwrap().value(), 5);
    assert_eq!(*h.lookup(12).unwrap().value(), 12);
    assert_eq!(*h.lookup(13).unwrap().value(), 18);
}

#[test]
fn a_position_off_the_ring_is_owned_by_the_head() {
    let h = ring_5_with(&[5, 12, 18, 29], &[]);
    for r in [32i64, 40, -1, -7, i64::MAX, i64::MIN] {
        assert_eq!(*h.lookup(r).unwrap().value(), 5);
        assert_eq!(h.locate(r), Some(0));
    }
}

#[test]
fn lookup_on_an_empty_ring_finds_nothing() {
    let h = HashRing::new(5);
    assert!(h.lookup(3).is_none());
    assert!(h.lookup(0).is_none());
    assert_eq!(h.locate(7), None);
}

#[test]
fn positions_off_the_ring_are_refused() {
    let mut h = ring_5_with(&[12], &[3]);
    assert_eq!(h.add_node(32), Err(RingError::OutOfRange));
    assert_eq!(h.add_node(-1), Err(RingError::OutOfRange));
    assert_eq!(h.add_resource(32), Err(RingError::OutOfRange));
    assert_eq!(h.add_resource(-5), Err(RingError::OutOfRange));
    assert_eq!(h.nodes(), vec![12]);
    assert_eq!(h.resources().get(&12), Some(&pairs(&[3])));
}

#[test]
fn a_second_node_at_a_position_is_refused() {
    let mut h = ring_5_with(&[5, 12], &[3, 8]);
    assert_eq!(h.add_node(12), Err(RingError::NodeExists));
    assert_eq!(h.add_node(5), Err(RingError::NodeExists));
    assert_eq!(h.nodes(), vec![5, 12]);
    assert_eq!(h.resources().get(&5), Some(&pairs(&[3])));
    assert_eq!(h.resources().get(&12), Some(&pairs(&[8])));
}

#[test]
fn a_resource_needs_a_node() {
    let mut h = HashRing::new(5);
    assert_eq!(h.add_resource(3), Err(RingError::NodeNotFound));
}

#[test]
fn moving_needs_both_nodes() {
    let mut h = ring_5_with(&[5, 12], &[3, 8]);
    assert_eq!(h.move_resource(6, 12, true), Err(RingError::NodeNotFound));
    assert_eq!(h.move_resource(5, 13, true), Err(RingError::NodeNotFound));
    assert_eq!(h.move_resource(40, 12, true), Err(RingError::NodeNotFound));
    assert_eq!(h.resources().get(&5), Some(&pairs(&[3])));
    assert_eq!(h.resources().get(&12), Some(&pairs(&[8])));
    let mut empty = HashRing::new(5);
    assert_eq!(empty.move_resource(0, 0, false), Err(RingError::NodeNotFound));
}

#[test]
fn moving_without_force_takes_only_the_nearer_resources() {
    let mut h = ring_5_with(&[12, 18], &[2, 7, 10, 16, 29]);
    // from 12 to 18 nothing is nearer to 18
    assert_eq!(h.move_resource(18, 12, false), Ok(()));
    assert_eq!(h.resources().get(&12), Some(&pairs(&[2, 7, 10, 29])));
    assert_eq!(h.resources().get(&18), Some(&pairs(&[16])));
    // forced onto 18, then back without force: what 12 owns comes back
    assert_eq!(h.move_resource(18, 12, true), Ok(()));
    assert_eq!(h.resources().get(&12), Some(&pairs(&[])));
    assert_eq!(h.move_resource(12, 18, false), Ok(()));
    assert_eq!(h.resources().get(&12), Some(&pairs(&[2, 7, 10, 29])));
    assert_eq!(h.resources().get(&18), Some(&pairs(&[16])));
    // a move onto itself changes nothing
    assert_eq!(h.move_resource(12, 12, true), Ok(()));
    assert_eq!(h.resources().get(&12), Some(&pairs(&[2, 7, 10, 29])));
}

#[test]
fn removing_an_absent_node_changes_nothing() {
    let mut h = ring_5_with(&[5, 12], &[3, 8]);
    h.remove_node(6);
    h.remove_node(40);
    h.remove_node(-3);
    assert_eq!(h.nodes(), vec![5, 12]);
    assert_eq!(h.resources().get(&5), Some(&pairs(&[3])));
    let mut empty = HashRing::new(5);
    empty.remove_node(0);
    assert_eq!(empty.nodes(), Vec::<i64>::new());
}

#[test]
fn removing_the_head_or_the_last_node_hands_resources_on() {
    let mut h = ring_5_with(&[5, 12, 29], &[3, 8, 20, 30]);
    assert_eq!(h.resources().get(&5), Some(&pairs(&[3, 30])));
    h.remove_node(5);
    assert_eq!(h.nodes(), vec![12, 29]);
    assert_eq!(h.get_head_value(), 12);
    assert_eq!(h.resources().get(&12), Some(&pairs(&[3, 8, 30])));
    h.remove_node(29);
    assert_eq!(h.nodes(), vec![12]);
    assert_eq!(h.resources().get(&12), Some(&pairs(&[3, 8, 20, 30])));
    h.remove_node(12);
    assert_eq!(h.nodes(), Vec::<i64>::new());
    assert_eq!(h.resources().len(), 0);
}

#[test]
fn every_resource_stays_with_its_owner_through_adds_and_removes() {
    let all: Vec<i64> = (0..32).collect();
    let mut h = ring_5_with(&[16], &all);
    let steps: [(bool, i64); 9] = [
        (true, 4),
        (true, 31),
        (true, 0),
        (false, 16),
        (true, 20),
        (true, 21),
        (false, 0),
        (false, 31),
        (true, 9),
    ];
    for (add, at) in steps {
        if add {
            assert_eq!(h.add_node(at), Ok(()));
        } else {
            h.remove_node(at);
        }
        let listing = h.resources();
        let mut count = 0;
        for n in h.nodes() {
            for (r, v) in listing.get(&n).unwrap() {
                assert_eq!(r, v);
                assert_eq!(*h.lookup(*r).unwrap().value(), n);
                count += 1;
            }
        }
        assert_eq!(count, 32);
    }
}

#[test]
fn listing_is_sorted_by_key() {
    let mut keys: Vec<i64> = (0..200).map(|i| (i * 37) % 1000).collect();
    let mut h = HashRing::new(10);
    let _ = h.add_node(1000);
    for k in &keys {
        let _ = h.add_resource(*k);
    }
    keys.sort();
    keys.dedup();
    assert_eq!(h.resources().get(&1000), Some(&pairs(&keys)));
}
