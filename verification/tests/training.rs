use rmi_lib::data::RMITrainingData;
use rmi_lib::train::{train, validate, TrainError};

fn even_keys() -> RMITrainingData {
    RMITrainingData::new((0..1000u64).map(|i| 2 * i).collect())
}

/// Keys that grow by small pseudo-random gaps.
fn gapped_keys(n: usize, seed: u64) -> Vec<u64> {
    let mut state = seed;
    let mut key = 0u64;
    let mut keys = Vec::with_capacity(n);
    for _ in 0..n {
        state = state.wrapping_mul(6364136223846793005).wrapping_add(1442695040888963407);
        key += 1 + (state >> 33) % 16;
        keys.push(key);
    }
    keys
}

#[test]
fn linear_on_evenly_spaced_keys_is_exact() {
    let rmi = train(&even_keys(), "linear,linear", 16).unwrap();
    assert_eq!(rmi.model_total_error, 0);
    assert_eq!(rmi.model_max_error, 0);
    assert_eq!(rmi.num_rmi_rows, 16);
    assert_eq!(rmi.rmi[1].len(), 16);
    assert_eq!(rmi.last_layer_max_l1s, vec![0u64; 16]);
    for leaf in &rmi.rmi[1] {
        assert_eq!(leaf.left_radius, 0);
        assert_eq!(leaf.right_radius, 0);
    }
    assert_eq!(rmi.models, "linear,linear");
    assert_eq!(rmi.branching_factor, 16);
    assert_eq!(rmi.num_data_rows, 1000);
}

#[test]
fn radix_root_keeps_the_error_small() {
    let keys = gapped_keys(10_000, 42);
    let data = RMITrainingData::new(keys.clone());
    let rmi = train(&data, "radix,linear", 256).unwrap();
    // a mean of at most three bits
    assert!(rmi.model_total_log2_error <= 3 * 10_000);
    let mut covered = 0usize;
    for leaf in &rmi.rmi[1] {
        assert_eq!(leaf.start, covered);
        for i in leaf.start..leaf.end {
            let p = leaf.model.predict_to_int(keys[i]);
            assert!(p <= i as u64 + leaf.left_radius);
            assert!(p + leaf.right_radius >= i as u64);
        }
        covered = leaf.end;
    }
    assert_eq!(covered, 10_000);
}

#[test]
fn a_root_only_model_below_the_root_is_refused() {
    let names = vec!["linear".to_string(), "radix".to_string()];
    assert_eq!(validate(&names), Err(TrainError::BadSpec));
    assert_eq!(train(&even_keys(), "linear,radix", 16).err(), Some(TrainError::BadSpec));
}

#[test]
fn a_scaled_view_trains_onto_its_own_positions() {
    let keys: Vec<u64> = (0..1000u64).map(|i| 2 * i).collect();
    let data = RMITrainingData::new(keys.clone()).with_scale(16, 1000).unwrap();
    let rmi = train(&data, "linear,linear", 4).unwrap();
    assert_eq!(rmi.num_data_rows, 1000);
    // the positions run from 0 to 15, and so do the predictions
    for (i, key) in keys.iter().enumerate() {
        let found = rmi.lookup(*key).unwrap();
        let position = (i * 16 / 1000) as u64;
        assert!(found.position <= position + found.left_radius);
        assert!(found.position + found.right_radius >= position);
        assert!(found.position <= 15);
    }
    assert!(rmi.model_max_error <= 1);
}
