use rmi_lib::codegen::rmi_size;
use rmi_lib::data::RMITrainingData;
use rmi_lib::engine::child_index_exec;
use rmi_lib::multi_layer::train_multi_layer;
use rmi_lib::rmi::{log2_exec, measure, TrainedRMI};
use rmi_lib::train::{driver_validation, train, TrainError};
use rmi_lib::two_layer::{
    train_naive_three_layer, train_partial_three_layer, train_three_layer, train_two_layer,
};

fn gapped(n: usize, seed: u64) -> Vec<u64> {
    let mut state = seed;
    let mut key = 0u64;
    let mut keys = Vec::with_capacity(n);
    for _ in 0..n {
        state = state.wrapping_mul(6364136223846793005).wrapping_add(1442695040888963407);
        key += 1 + (state >> 33) % 16;
        keys.push(key);
    }
    keys
}

/// The child of a prediction, written out anew.
fn reference_child(p: u64, b: u64, n: u64) -> u64 {
    let c = (p as u128 * b as u128) / n as u128;
    if c >= b as u128 {
        b - 1
    } else {
        c as u64
    }
}

#[test]
fn the_child_of_a_prediction() {
    assert_eq!(child_index_exec(0, 16, 0, 1000), 0);
    assert_eq!(child_index_exec(62, 16, 0, 1000), 0);
    assert_eq!(child_index_exec(63, 16, 0, 1000), 1);
    assert_eq!(child_index_exec(999, 16, 0, 1000), 15);
    assert_eq!(child_index_exec(5000, 16, 0, 1000), 15);
    assert_eq!(child_index_exec(u64::MAX, u64::MAX, 0, 1), u64::MAX - 1);
    // a run that starts at position 100 and covers 50 positions
    assert_eq!(child_index_exec(99, 4, 100, 50), 0);
    assert_eq!(child_index_exec(100, 4, 100, 50), 0);
    assert_eq!(child_index_exec(113, 4, 100, 50), 1);
    assert_eq!(child_index_exec(149, 4, 100, 50), 3);
    for p in 0..1200u64 {
        assert_eq!(child_index_exec(p, 7, 0, 1000), reference_child(p, 7, 1000));
    }
}

#[test]
fn every_pair_reaches_the_child_that_the_mapping_names() {
    let keys = gapped(5_000, 7);
    let data = RMITrainingData::new(keys.clone());
    for (spec, bf) in [("linear,linear", 64u64), ("radix,linear_spline", 1000), ("pwl,linear", 17)] {
        let rmi = train(&data, spec, bf).unwrap();
        let root = &rmi.rmi[0][0];
        assert_eq!((root.slot, root.start, root.end), (0, 0, 5_000));
        let mut pairs = 0;
        let mut last_slot = None;
        for leaf in &rmi.rmi[1] {
            assert!(leaf.start < leaf.end);
            assert!(last_slot < Some(leaf.slot));
            last_slot = Some(leaf.slot);
            for i in leaf.start..leaf.end {
                let p = root.model.predict_to_int(keys[i]);
                assert_eq!(leaf.slot, reference_child(p, bf, 5_000));
            }
            pairs += leaf.end - leaf.start;
        }
        assert_eq!(pairs, 5_000);
        assert_eq!(rmi.num_rmi_rows, rmi.rmi[1].len());
    }
}

fn same(a: &TrainedRMI, b: &TrainedRMI) {
    assert_eq!(a.num_rmi_rows, b.num_rmi_rows);
    assert_eq!(a.num_data_rows, b.num_data_rows);
    assert_eq!(a.model_total_error, b.model_total_error);
    assert_eq!(a.model_total_l2_error, b.model_total_l2_error);
    assert_eq!(a.model_total_log2_error, b.model_total_log2_error);
    assert_eq!(a.model_max_error, b.model_max_error);
    assert_eq!(a.model_max_error_idx, b.model_max_error_idx);
    assert_eq!(a.model_max_log2_error, b.model_max_log2_error);
    assert_eq!(a.last_layer_max_l1s, b.last_layer_max_l1s);
    assert_eq!(a.third_layer_max_l1s, b.third_layer_max_l1s);
    assert_eq!(format!("{:?}", a.rmi), format!("{:?}", b.rmi));
    assert_eq!(rmi_size(a), rmi_size(b));
}

#[test]
fn training_twice_gives_the_same_index() {
    let data = RMITrainingData::new(gapped(3_000, 99));
    let one = train(&data, "radix18,linear", 128).unwrap();
    let other = train(&data.soft_copy(), "radix18,linear", 128).unwrap();
    same(&one, &other);
}

#[test]
fn the_measures_of_error() {
    let totals = measure(&vec![0, 5, 2, 10], &vec![0, 1, 2, 3]);
    assert_eq!(totals.total, 11);
    assert_eq!(totals.total_l2, 16 + 49);
    // log2(1) + log2(5) + log2(1) + log2(8), rounded down each
    assert_eq!(totals.total_log2, 0 + 2 + 0 + 3);
    assert_eq!((totals.max, totals.max_idx, totals.max_log2), (7, 3, 3));
    let ties = measure(&vec![3, 0, 3], &vec![0, 3, 0]);
    assert_eq!((ties.max, ties.max_idx), (3, 0));
    let none = measure(&vec![], &vec![]);
    assert_eq!((none.total, none.max, none.max_idx, none.max_log2), (0, 0, 0, 0));
    let far = measure(&vec![u64::MAX, u64::MAX], &vec![0, 0]);
    assert_eq!(far.total, 2 * (u64::MAX as u128));
    assert_eq!(far.total_l2, u128::MAX);
    assert_eq!(far.max_log2, 64);
    assert_eq!(log2_exec(0), 0);
    assert_eq!(log2_exec(1), 1);
    assert_eq!(log2_exec(2), 1);
    assert_eq!(log2_exec(3), 2);
    assert_eq!(log2_exec(6), 2);
    assert_eq!(log2_exec(7), 3);
    assert_eq!(log2_exec(u64::MAX - 1), 63);
    assert_eq!(log2_exec(u64::MAX), 64);
}

#[test]
fn the_radii_hold_for_every_layer() {
    let keys = gapped(4_000, 5);
    let data = RMITrainingData::new(keys.clone());
    let rmi = train(&data, "linear,linear,linear", 8).unwrap();
    assert_eq!(rmi.rmi.len(), 3);
    for layer in &rmi.rmi {
        let mut covered = 0;
        for node in layer {
            assert_eq!(node.start, covered);
            let mut left = 0;
            let mut right = 0;
            for i in node.start..node.end {
                let p = node.model.predict_to_int(keys[i]);
                left = left.max(p.saturating_sub(i as u64));
                right = right.max((i as u64).saturating_sub(p));
            }
            assert_eq!((node.left_radius, node.right_radius), (left, right));
            covered = node.end;
        }
        assert_eq!(covered, 4_000);
    }
    let leaves: Vec<u64> = rmi.rmi[2].iter().map(|n| n.left_radius.max(n.right_radius)).collect();
    let middle: Vec<u64> = rmi.rmi[1].iter().map(|n| n.left_radius.max(n.right_radius)).collect();
    assert_eq!(rmi.last_layer_max_l1s, leaves);
    assert_eq!(rmi.third_layer_max_l1s, middle);
    assert_eq!(rmi.model_max_error, *leaves.iter().max().unwrap());
    // every child's slot is its parent's slot times the branching factor plus its index
    for child in &rmi.rmi[2] {
        let parent = rmi.rmi[1].iter().find(|n| n.start <= child.start && child.end <= n.end).unwrap();
        assert_eq!(child.slot / 8, parent.slot);
    }
}

#[test]
fn the_size_counts_every_node() {
    let data = RMITrainingData::new((0..1000u64).map(|i| 2 * i).collect());
    let rmi = train(&data, "linear,linear", 16).unwrap();
    // 17 lines of 96 bytes, each with 16 bytes for its slot and its radius
    assert_eq!(rmi_size(&rmi), 17 * (96 + 16));
    let spline = train(&data, "radix,linear_spline", 4).unwrap();
    assert_eq!(rmi_size(&spline), (32 + 16) + 4 * (32 + 16));
}

#[test]
fn the_trainers_agree_where_they_should() {
    let data = RMITrainingData::new(gapped(2_000, 3));
    let two = train_two_layer(&data, "radix", "linear", 32).unwrap();
    let multi = train_multi_layer(&data, &vec!["radix".to_string()], "linear".to_string(), 32).unwrap();
    same(&two, &multi);
    assert_eq!(two.models, "radix,linear");
    assert_eq!(two.build_time, 0);
    assert!(two.third_layer_max_l1s.is_empty());

    let partial = train_partial_three_layer(&data, "linear", "linear", "linear", 8).unwrap();
    let general = train_multi_layer(
        &data,
        &vec!["linear".to_string(), "linear".to_string()],
        "linear".to_string(),
        8,
    )
    .unwrap();
    same(&partial, &general);
    assert_eq!(partial.models, "linear,linear,linear");

    let three = train_three_layer(&data, "linear", "linear", "linear", 8).unwrap();
    assert_eq!(three.rmi.len(), 3);
    assert_eq!(three.rmi[1].len(), partial.rmi[1].len());

    let naive = train_naive_three_layer(&data, "linear", "pwl", "linear", 8).unwrap();
    assert_eq!(naive.rmi.iter().map(|l| l.len()).collect::<Vec<_>>(), vec![1, 1, 1]);
    assert_eq!(naive.num_rmi_rows, 1);
    let single = train_multi_layer(&data, &vec![], "linear".to_string(), 8).unwrap();
    assert_eq!(naive.model_total_error, single.model_total_error);
    assert_eq!(single.rmi.len(), 1);
    assert_eq!(single.models, "linear");
}

#[test]
fn the_driver_runs_as_many_trainers_as_the_list_allows() {
    let data = RMITrainingData::new(gapped(1_000, 11));
    let one = driver_validation(&data, "linear", 16).unwrap();
    assert!(one.two_layer.is_none() && one.three_layer.is_none());
    assert!(one.naive_three_layer.is_none() && one.partial_three_layer.is_none());
    assert_eq!(one.multi_layer.rmi.len(), 1);

    let two = driver_validation(&data, "radix,linear", 16).unwrap();
    same(&two.multi_layer, two.two_layer.as_ref().unwrap());
    assert!(two.three_layer.is_none());

    let three = driver_validation(&data, "radix,linear,linear", 16).unwrap();
    same(&three.multi_layer, three.partial_three_layer.as_ref().unwrap());
    assert_eq!(three.two_layer.as_ref().unwrap().models, "radix,linear");
    assert_eq!(three.three_layer.as_ref().unwrap().rmi.len(), 3);
    assert_eq!(three.naive_three_layer.as_ref().unwrap().num_rmi_rows, 1);

    let four = driver_validation(&data, "radix,linear,linear,linear", 4).unwrap();
    assert_eq!(four.multi_layer.rmi.len(), 4);
    assert_eq!(four.two_layer.as_ref().unwrap().models, "radix,linear");
    assert_eq!(four.partial_three_layer.as_ref().unwrap().models, "radix,linear,linear");

    assert_eq!(driver_validation(&data, "linear,radix", 16).err(), Some(TrainError::BadSpec));
    let curved = driver_validation(&data, "cubic,linear", 16).unwrap();
    assert_eq!(curved.multi_layer.models, "cubic,linear");
    same(&curved.multi_layer, curved.two_layer.as_ref().unwrap());
}

#[test]
fn what_cannot_be_trained_is_refused() {
    let data = RMITrainingData::new(gapped(100, 1));
    assert_eq!(train(&data, "linear,linear", 0).err(), Some(TrainError::BadBranchingFactor));
    assert_eq!(train(&data, "quartic,linear", 4).err(), Some(TrainError::BadSpec));
    assert_eq!(train(&data, "linear,", 4).err(), Some(TrainError::BadSpec));
    assert_eq!(train(&data, "", 4).err(), Some(TrainError::BadSpec));
    assert_eq!(train(&data, "linear_spline,linear", 4).err(), Some(TrainError::BadSpec));
    // the trainers themselves know no model's place, but the names
    assert!(train_two_layer(&data, "linear_spline", "radix", 4).is_ok());
    assert_eq!(train_two_layer(&data, "line", "linear", 4).err(), Some(TrainError::BadSpec));
    // slots of five layers at this branching factor do not fit in 64 bits
    assert_eq!(
        train(&data, "linear,linear,linear,linear,linear", 1 << 20).err(),
        Some(TrainError::BadBranchingFactor)
    );
    // keys out of order send a later pair to an earlier child
    let unsorted = RMITrainingData::new(vec![0, 100, 50, 60, 70]);
    assert_eq!(train(&unsorted, "linear,linear", 5).err(), Some(TrainError::NotMonotone));
}

#[test]
fn no_data_trains_to_an_index_without_leaves() {
    let rmi = train(&RMITrainingData::empty(), "linear,linear", 4).unwrap();
    assert_eq!(rmi.num_data_rows, 0);
    assert_eq!(rmi.num_rmi_rows, 0);
    assert_eq!(rmi.rmi.iter().map(|l| l.len()).collect::<Vec<_>>(), vec![0, 0]);
    assert_eq!(rmi.model_total_error, 0);
    let one = train(&RMITrainingData::new(vec![42]), "linear,linear", 4).unwrap();
    assert_eq!(one.num_rmi_rows, 1);
    assert_eq!(one.last_layer_max_l1s, vec![0]);
    let view = RMITrainingData::new(vec![1, 2, 3, 4, 5, 6]).restrict(2, 5).unwrap();
    let part = train(&view, "linear,linear", 2).unwrap();
    assert_eq!(part.num_data_rows, 3);
    assert_eq!(part.model_total_error, 0);
    assert_eq!(part.rmi[0][0].model.predict_to_int(3), 2);
}
