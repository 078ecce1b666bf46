use rmi_lib::cache_fix::{cache_fix, cache_fix_keys, is_sorted, probe_window, radius, segment_of};
use rmi_lib::data::RMITrainingData;

#[test]
fn the_radius_is_half_a_line() {
    assert_eq!(radius(0), 0);
    assert_eq!(radius(1), 0);
    assert_eq!(radius(2), 0);
    assert_eq!(radius(3), 1);
    assert_eq!(radius(8), 3);
    assert_eq!(radius(9), 4);
}

#[test]
fn sorted_keys_are_told_from_unsorted() {
    assert!(is_sorted(&vec![]));
    assert!(is_sorted(&vec![5]));
    assert!(is_sorted(&vec![1, 1, 2, 9]));
    assert!(!is_sorted(&vec![1, 3, 2]));
    assert!(!is_sorted(&vec![2, 1]));
}

#[test]
fn keys_on_a_line_need_two_anchors() {
    let keys: Vec<u64> = (0..10).collect();
    assert_eq!(cache_fix_keys(&keys, 3), vec![(0, 0), (9, 9)]);
    assert_eq!(cache_fix_keys(&keys, 1), vec![(0, 0), (9, 9)]);
    assert_eq!(cache_fix_keys(&vec![], 3), vec![]);
    assert_eq!(cache_fix_keys(&vec![4], 3), vec![(4, 0)]);
    assert_eq!(cache_fix_keys(&vec![4, 4, 4], 3), vec![(4, 0)]);
    assert_eq!(cache_fix_keys(&vec![4, 4, 6], 3), vec![(4, 0), (6, 2)]);
}

#[test]
fn a_bend_ends_the_segment() {
    let keys = vec![0, 1, 2, 3, 100, 101, 102, 103];
    assert_eq!(cache_fix_keys(&keys, 3), vec![(0, 0), (3, 3), (101, 5), (103, 7)]);
    // with no room at all every bend is an anchor
    assert_eq!(cache_fix_keys(&keys, 1), vec![(0, 0), (3, 3), (100, 4), (103, 7)]);
    // with room for all, the ends are enough
    assert_eq!(cache_fix_keys(&keys, 17), vec![(0, 0), (103, 7)]);
    let data = RMITrainingData::new(keys.clone());
    assert_eq!(cache_fix(&data, 3), cache_fix_keys(&keys, 3));
}

#[test]
fn a_key_is_sought_among_the_anchors() {
    let spline = vec![(0u64, 0usize), (3, 3), (101, 5), (103, 7)];
    assert_eq!(segment_of(&spline, 0), 0);
    assert_eq!(segment_of(&spline, 2), 0);
    assert_eq!(segment_of(&spline, 3), 1);
    assert_eq!(segment_of(&spline, 100), 1);
    assert_eq!(segment_of(&spline, 101), 2);
    assert_eq!(segment_of(&spline, 103), 3);
    assert_eq!(segment_of(&spline, 9000), 3);
}

#[test]
fn the_window_holds_the_key() {
    let keys: Vec<u64> = vec![0, 1, 2, 3, 100, 101, 102, 103];
    let spline = cache_fix_keys(&keys, 3);
    assert_eq!(probe_window(&spline, 3, 8, 0), (0, 2));
    assert_eq!(probe_window(&spline, 3, 8, 2), (1, 4));
    // on the line from (3, 3) to (101, 5) the key 100 lies at 3 + 2 * 97 / 98 = 4
    assert_eq!(probe_window(&spline, 3, 8, 100), (3, 6));
    assert_eq!(probe_window(&spline, 3, 8, 102), (5, 8));
    assert_eq!(probe_window(&spline, 3, 8, 103), (6, 8));
    assert_eq!(probe_window(&spline, 3, 8, 5000), (6, 8));
    assert_eq!(probe_window(&vec![], 3, 8, 5), (0, 0));
    assert_eq!(probe_window(&vec![(10, 0)], 3, 8, 5), (0, 0));
    for line in 1..12 {
        let spline = cache_fix_keys(&keys, line);
        for (i, key) in keys.iter().enumerate() {
            let (lo, hi) = probe_window(&spline, line, keys.len(), *key);
            assert!(lo <= i && i < hi);
            assert!(hi - lo <= line);
        }
    }
}

#[test]
fn a_key_that_stands_often_is_found_where_it_first_stands() {
    let mut keys = Vec::new();
    for block in 0..50u64 {
        for _ in 0..(1 + block % 7) {
            keys.push(block * block + 3);
        }
    }
    for line in [1, 2, 5, 16] {
        let spline = cache_fix_keys(&keys, line);
        for (i, key) in keys.iter().enumerate() {
            if i == 0 || keys[i - 1] < *key {
                let (lo, hi) = probe_window(&spline, line, keys.len(), *key);
                assert!(lo <= i && i < hi);
                assert!(hi - lo <= line);
            }
        }
    }
}
