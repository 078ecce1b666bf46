use rmi_lib::optimizer::{narrow_front, pareto_front, RMIStatistics};

fn stat(models: &str, bf: u64, err: u64, size: u64) -> RMIStatistics {
    RMIStatistics {
        models: models.to_string(),
        branching_factor: bf,
        average_log2_error: err,
        max_log2_error: 0,
        size,
    }
}

#[test]
fn pareto_front_drops_dominated_members() {
    let all = vec![
        stat("linear,linear", 64, 300, 1000),
        stat("radix,linear", 64, 200, 1000),
        stat("radix,linear", 128, 100, 2000),
        stat("cubic,linear", 128, 100, 3000),
    ];
    let front = pareto_front(&all);
    assert_eq!(front.len(), 2);
    assert_eq!(front[0].average_log2_error, 200);
    assert_eq!(front[1].size, 2000);
}

#[test]
fn narrow_front_keeps_the_smallest() {
    let all = vec![
        stat("a", 1, 50, 400),
        stat("b", 1, 90, 100),
        stat("c", 1, 70, 200),
        stat("d", 1, 60, 210),
    ];
    let kept = narrow_front(&all, 3);
    assert_eq!(kept.len(), 3);
    assert_eq!(kept[0].size, 100);
    assert_eq!(kept[1].size, 210);
    assert_eq!(kept[2].size, 400);
}

#[test]
fn a_result_is_dominated_by_a_better_one() {
    let a = stat("a", 1, 100, 1000);
    assert!(!a.dominated_by(&a));
    assert!(a.dominated_by(&stat("b", 1, 100, 999)));
    assert!(a.dominated_by(&stat("b", 1, 99, 1000)));
    assert!(a.dominated_by(&stat("b", 1, 50, 500)));
    assert!(!a.dominated_by(&stat("b", 1, 100, 1000)));
    assert!(!a.dominated_by(&stat("b", 1, 99, 1001)));
    assert!(!a.dominated_by(&stat("b", 1, 101, 999)));
    assert!(!a.dominated_by(&stat("b", 1, 101, 1001)));
}

#[test]
fn a_configuration_is_known_by_its_list_and_its_factor() {
    let a = stat("radix,linear", 64, 0, 0);
    assert!(a.has_config("radix,linear", 64));
    assert!(!a.has_config("radix,linear", 128));
    assert!(!a.has_config("radix,linea", 64));
    assert!(!a.has_config("radix,linear ", 64));
}

#[test]
fn the_frontier_keeps_equal_results() {
    let all = vec![stat("a", 1, 10, 10), stat("b", 2, 10, 10), stat("c", 3, 11, 10)];
    let front = pareto_front(&all);
    assert_eq!(front.len(), 2);
    assert_eq!(front[0].models, "a");
    assert_eq!(front[1].models, "b");
    assert_eq!(pareto_front(&[]).len(), 0);
    // no member of a frontier dominates another
    let many: Vec<RMIStatistics> =
        (0..40u64).map(|i| stat("m", i, (i * 37) % 101, (i * 53) % 89)).collect();
    let front = pareto_front(&many);
    for a in &front {
        for b in &front {
            assert!(!a.dominated_by(b));
        }
    }
    for a in &many {
        let on_front = front.iter().any(|f| f.branching_factor == a.branching_factor);
        assert_eq!(on_front, !many.iter().any(|b| a.dominated_by(b)));
    }
}

#[test]
fn a_narrowed_frontier_has_the_size_that_was_asked_for() {
    let all: Vec<RMIStatistics> =
        (0..20u64).map(|i| stat("m", i, 1000 - 10 * i, 100 + i * i)).collect();
    for keep in 2..25 {
        let kept = narrow_front(&all, keep);
        assert_eq!(kept.len(), keep.min(20));
        if keep < 20 {
            assert_eq!(kept[0].size, 100);
            // for every member there is one at least as accurate
            for a in &all {
                assert!(kept.iter().any(|k| k.average_log2_error <= a.average_log2_error));
            }
        }
    }
    // a short frontier is left as it is, in its own order
    let short = vec![stat("a", 1, 1, 30), stat("b", 1, 2, 20)];
    let kept = narrow_front(&short, 2);
    assert_eq!(kept[0].size, 30);
    assert_eq!(kept[1].size, 20);
}

#[test]
fn of_the_closest_pair_the_less_accurate_leaves() {
    // sorted by size: 100, 200, 210, 400; the smallest is set aside, and of
    // 200 and 210, the closest of the rest, the first is less accurate
    let all = vec![stat("a", 1, 50, 400), stat("b", 1, 90, 100), stat("c", 1, 70, 200), stat("d", 1, 60, 210)];
    let kept = narrow_front(&all, 3);
    assert_eq!(kept.iter().map(|k| k.models.as_str()).collect::<Vec<_>>(), vec!["b", "d", "a"]);
    // equally accurate: the larger one leaves
    let all = vec![stat("a", 1, 50, 400), stat("b", 1, 90, 100), stat("c", 1, 60, 200), stat("d", 1, 60, 210)];
    let kept = narrow_front(&all, 3);
    assert_eq!(kept.iter().map(|k| k.models.as_str()).collect::<Vec<_>>(), vec!["b", "c", "a"]);
    // two pairs equally close: the first one is taken
    let all = vec![stat("s", 1, 0, 1), stat("a", 1, 9, 10), stat("b", 1, 8, 20), stat("c", 1, 7, 40)];
    let kept = narrow_front(&all, 3);
    assert_eq!(kept.iter().map(|k| k.models.as_str()).collect::<Vec<_>>(), vec!["s", "b", "c"]);
}

#[test]
fn the_frontier_comes_in_the_whole_order_of_accuracy() {
    // three results of one size and one error differ in their lists only,
    // and one of them stands twice
    let all = vec![
        stat("radix,linear", 64, 200, 1000),
        stat("linear,linear", 64, 200, 1000),
        stat("radix,linear", 64, 200, 1000),
        stat("cubic,linear", 64, 200, 1000),
        stat("linear,linear", 128, 100, 4000),
        stat("linear,cubic", 128, 100, 4000),
        stat("radix,cubic", 256, 50, 9000),
        stat("pwl,linear", 256, 60, 9500),
    ];
    let front = rmi_lib::optimizer::front_of(&all, 10);
    let lists: Vec<&str> = front.iter().map(|s| s.models.as_str()).collect();
    assert_eq!(
        lists,
        vec![
            "radix,cubic",
            "linear,cubic",
            "linear,linear",
            "cubic,linear",
            "linear,linear",
            "radix,linear",
            "radix,linear"
        ]
    );
    // no member is doubled or lost, errors ascend and sizes descend
    assert_eq!(front.iter().filter(|s| s.models == "radix,linear").count(), 2);
    for pair in front.windows(2) {
        assert!(pair[0].average_log2_error <= pair[1].average_log2_error);
        assert!(pair[0].size >= pair[1].size);
        if pair[0].average_log2_error < pair[1].average_log2_error {
            assert!(pair[0].size > pair[1].size);
        }
    }
    for a in &front {
        for b in &front {
            assert!(!a.dominated_by(b));
        }
    }
}

#[test]
fn narrowing_takes_members_away_and_adds_none() {
    let all = vec![
        stat("a", 1, 90, 100),
        stat("b", 1, 80, 110),
        stat("b", 1, 80, 110),
        stat("c", 1, 70, 400),
        stat("d", 1, 60, 900),
        stat("e", 1, 50, 1000),
    ];
    let narrowed = narrow_front(&all, 4);
    assert_eq!(narrowed.len(), 4);
    for name in ["a", "b", "c", "d", "e"] {
        let before = all.iter().filter(|s| s.models == name).count();
        let after = narrowed.iter().filter(|s| s.models == name).count();
        assert!(after <= before);
    }
    assert_eq!(narrowed[0].models, "a");
}
