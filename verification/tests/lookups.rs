use rmi_lib::cache_fix::{probe_window, probe_window_near, segment_near, segment_within};
use rmi_lib::data::RMITrainingData;
use rmi_lib::lookup::find_slot;
use rmi_lib::train::{train, train_bounded};
use rmi_lib::two_layer::train_three_layer;

fn gapped(n: usize, seed: u64) -> Vec<u64> {
    let mut state = seed;
    let mut key = 0u64;
    let mut keys = Vec::with_capacity(n);
    for _ in 0..n {
        state = state.wrapping_mul(6364136223846793005).wrapping_add(1442695040888963407);
        key += 1 + (state >> 33) % 16;
        keys.push(key);
    }
    keys
}

#[test]
fn every_key_of_the_data_is_found_within_the_radii() {
    let keys = gapped(10_000, 42);
    let data = RMITrainingData::new(keys.clone());
    for (spec, bf) in [("radix,linear", 256u64), ("linear,linear,linear", 16), ("pwl,linear_spline", 100), ("linear", 4)] {
        let rmi = train(&data, spec, bf).unwrap();
        let leaves = rmi.rmi.last().unwrap();
        for (i, key) in keys.iter().enumerate() {
            let found = rmi.lookup(*key).unwrap();
            let leaf = &leaves[found.leaf];
            assert!(leaf.start <= i && i < leaf.end);
            assert_eq!(found.position, leaf.model.predict_to_int(*key));
            assert_eq!((found.left_radius, found.right_radius), (leaf.left_radius, leaf.right_radius));
            assert!(found.position <= i as u64 + found.left_radius);
            assert!(found.position + found.right_radius >= i as u64);
        }
    }
    let three = train_three_layer(&data, "linear", "linear", "linear", 16).unwrap();
    for (i, key) in keys.iter().enumerate() {
        let found = three.lookup(*key).unwrap();
        assert!(found.position.abs_diff(i as u64) <= found.left_radius.max(found.right_radius));
    }
}

#[test]
fn a_key_that_leads_nowhere_finds_nothing() {
    // two clusters far apart: the children between them hold no pair
    let mut keys: Vec<u64> = (0..100).collect();
    keys.extend(1_000_000..1_000_100u64);
    let data = RMITrainingData::new(keys);
    let rmi = train(&data, "linear,linear", 64).unwrap();
    assert!(rmi.lookup(50).is_some());
    assert!(rmi.lookup(1_000_050).is_some());
    assert!(rmi.lookup(500_000).is_none());
    assert_eq!(rmi.rmi[1].len(), 2);
    let empty = train(&RMITrainingData::empty(), "linear,linear", 4).unwrap();
    assert!(empty.lookup(5).is_none());
    assert!(empty.bounded_lookup(5).is_none());
}

#[test]
fn a_node_is_found_by_its_slot() {
    let data = RMITrainingData::new((0..1000u64).map(|i| i * i).collect());
    let rmi = train(&data, "linear,linear", 32).unwrap();
    let leaves = &rmi.rmi[1];
    for (k, leaf) in leaves.iter().enumerate() {
        assert_eq!(find_slot(leaves, leaf.slot), Some(k));
    }
    let slots: Vec<u64> = leaves.iter().map(|n| n.slot).collect();
    for slot in 0..40 {
        assert_eq!(find_slot(leaves, slot).is_some(), slots.contains(&slot));
    }
    assert_eq!(find_slot(&rmi.rmi[0], 0), Some(0));
    assert_eq!(find_slot(&rmi.rmi[0], 1), None);
}

#[test]
fn a_range_of_anchors_does_not_change_what_is_found() {
    let spline = vec![(0u64, 0usize), (3, 3), (101, 5), (103, 7), (500, 20)];
    for key in [0u64, 2, 3, 100, 101, 102, 103, 400, 500, 9000] {
        let plain = segment_within(&spline, key, 0, spline.len());
        for from in 0..7 {
            for to in 0..7 {
                assert_eq!(segment_near(&spline, key, (from, to)), plain);
                assert_eq!(
                    probe_window_near(&spline, 5, 25, key, Some((from, to))),
                    probe_window(&spline, 5, 25, key)
                );
            }
        }
    }
    assert_eq!(segment_within(&spline, 101, 1, 3), 2);
    assert_eq!(segment_within(&spline, 3, 1, 2), 1);
}

#[test]
fn a_bounded_index_finds_every_key_in_one_line() {
    let keys = gapped(20_000, 9);
    let data = RMITrainingData::new(keys.clone());
    for line in [1usize, 2, 4, 8, 64] {
        let rmi = train_bounded(&data, "linear,linear", 64, line).unwrap();
        let (_, spline) = rmi.cache_fix.clone().unwrap();
        assert_eq!(rmi.num_rmi_rows, rmi.rmi[1].len());
        for (i, key) in keys.iter().enumerate() {
            let (lo, hi) = rmi.bounded_lookup(*key).unwrap();
            assert!(lo <= i && i < hi);
            assert!(hi - lo <= line);
            assert_eq!((lo, hi), probe_window(&spline, line, keys.len(), *key));
        }
    }
}
