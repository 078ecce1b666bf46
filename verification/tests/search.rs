use rmi_lib::codegen::rmi_size;
use rmi_lib::data::{KeyType, RMITrainingData};
use rmi_lib::optimizer::profile::OptimizerProfile;
use rmi_lib::optimizer::{find_pareto_efficient_configs, RMIStatistics};
use rmi_lib::train::{train_bounded, train_for_size, TrainError};

fn gapped(n: usize, seed: u64) -> Vec<u64> {
    let mut state = seed;
    let mut key = 0u64;
    let mut keys = Vec::with_capacity(n);
    for _ in 0..n {
        state = state.wrapping_mul(6364136223846793005).wrapping_add(1442695040888963407);
        key += 1 + (state >> 33) % 16;
        keys.push(key);
    }
    keys
}

#[test]
fn the_search_keeps_a_frontier_of_five() {
    let data = RMITrainingData::new(gapped(10_000, 42));
    let front = find_pareto_efficient_configs(&data, 5, OptimizerProfile::Standard);
    for s in &front {
        println!("{} {} {} {}", s.models, s.branching_factor, s.average_log2_error, s.size);
    }
    assert_eq!(front.len(), 5);
    for pair in front.windows(2) {
        assert!(pair[0].average_log2_error < pair[1].average_log2_error);
        assert!(pair[0].size > pair[1].size);
    }
}

#[test]
fn training_for_a_size_stays_below_it() {
    let data = RMITrainingData::new(gapped(10_000, 42));
    let front: Vec<RMIStatistics> =
        find_pareto_efficient_configs(&data, 1000, OptimizerProfile::Standard);
    let mut sizes: Vec<u64> = front.iter().map(|s| s.size).collect();
    sizes.sort();
    sizes.dedup();
    let budget = sizes[1] as usize;
    let rmi = train_for_size(&data, budget, OptimizerProfile::Standard).unwrap();
    assert!(rmi_size(&rmi) < budget as u64);
    assert_eq!(rmi_size(&rmi), sizes[0]);
    assert_eq!(
        train_for_size(&data, 1, OptimizerProfile::Standard).err(),
        Some(TrainError::NoConfigFits)
    );
}

#[test]
fn a_bounded_index_probes_one_line() {
    let keys = gapped(10_000, 42);
    let data = RMITrainingData::new(keys.clone());
    let rmi = train_bounded(&data, "radix,linear", 256, 8).unwrap();
    assert_eq!(rmi.num_data_rows, 10_000);
    assert!(rmi.model_max_error <= 4);
    let (line, spline) = rmi.cache_fix.clone().unwrap();
    assert_eq!(line, 8);
    assert!(spline.len() < keys.len());
    for (i, key) in keys.iter().enumerate() {
        let (lo, hi) = rmi.bounded_lookup(*key).unwrap();
        assert!(lo <= i && i < hi, "key at {} is outside {}..{}", i, lo, hi);
        assert!(hi - lo <= 8);
    }
}

#[test]
fn a_bounded_index_needs_integer_keys_in_order() {
    let floats = RMITrainingData::with_key_type(vec![1, 2, 3], KeyType::F64);
    assert_eq!(train_bounded(&floats, "linear,linear", 4, 8).err(), Some(TrainError::UnsupportedKind));
    let unsorted = RMITrainingData::new(vec![3, 1, 2]);
    assert_eq!(train_bounded(&unsorted, "linear,linear", 4, 8).err(), Some(TrainError::UnsortedKeys));
    let sorted = RMITrainingData::new(vec![1, 2, 3]);
    assert_eq!(train_bounded(&sorted, "linear,linear", 4, 0).err(), Some(TrainError::BadLineSize));
}
