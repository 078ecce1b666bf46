use rmi_lib::curves::{exp_fixed_exec, log_fixed_exec, root_exec};
use rmi_lib::data::RMITrainingData;
use rmi_lib::models::{Model, ModelForm, ModelKind};
use rmi_lib::train::{train, train_model};

/// The anchors of a model held as segments.
fn anchors(model: &Model) -> (Vec<u64>, Vec<u64>) {
    match &model.form {
        ModelForm::Segments { xs, ys } => (xs.clone(), ys.clone()),
        other => panic!("not held as segments: {:?}", other),
    }
}

/// The largest distance between a key's position and what the model says.
fn largest_error(model: &Model, keys: &[u64]) -> u64 {
    keys.iter().enumerate().map(|(i, k)| model.predict_to_int(*k).abs_diff(i as u64)).max().unwrap()
}

fn four_dice(faces: u64) -> Vec<u64> {
    let mut sums = Vec::new();
    for a in 0..faces {
        for b in 0..faces {
            for c in 0..faces {
                for d in 0..faces {
                    sums.push(a + b + c + d);
                }
            }
        }
    }
    sums.sort();
    sums
}

#[test]
fn the_logarithm_runs_straight_between_powers_of_two() {
    assert_eq!(log_fixed_exec(0), 0);
    assert_eq!(log_fixed_exec(1), 0);
    assert_eq!(log_fixed_exec(2), 65536);
    assert_eq!(log_fixed_exec(3), 98304);
    assert_eq!(log_fixed_exec(6), 163840);
    assert_eq!(log_fixed_exec(1000), 652288);
    assert_eq!(log_fixed_exec(u64::MAX), 4194303);
    assert_eq!(exp_fixed_exec(0), 1);
    assert_eq!(exp_fixed_exec(65536 + 32768), 3);
    assert_eq!(exp_fixed_exec(652288), 1000);
    assert_eq!(exp_fixed_exec(64 * 65536), 1 << 63);
    assert_eq!(exp_fixed_exec(63 * 65536 + 65535), 18446603336221196288);
    for x in [1u64, 2, 3, 5, 8, 1000, 65535, 1 << 40] {
        assert_eq!(exp_fixed_exec(log_fixed_exec(x)), x);
    }
}

#[test]
fn the_root_is_the_whole_part() {
    assert_eq!(root_exec(0), 0);
    assert_eq!(root_exec(1), 1);
    assert_eq!(root_exec(3), 1);
    assert_eq!(root_exec(4), 2);
    assert_eq!(root_exec(99), 9);
    assert_eq!(root_exec(u64::MAX), 4294967295);
}

#[test]
fn the_cubic_follows_a_bent_curve() {
    // keys at a thousand times the root of their position
    let keys: Vec<u64> = (0..=100u64).map(|i| root_exec(i * 1_000_000)).collect();
    let data = RMITrainingData::new(keys.clone());
    let cubic = train_model("cubic", &data).unwrap();
    assert_eq!(cubic.kind, ModelKind::Cubic);
    let (xs, ys) = anchors(&cubic);
    assert_eq!(xs.len(), 33);
    assert_eq!(&xs[..5], &[0, 312, 625, 937, 1250]);
    assert_eq!(xs[32], 10000);
    assert_eq!(
        ys,
        vec![
            0, 0, 0, 0, 1, 1, 2, 4, 5, 7, 9, 11, 13, 15, 18, 21, 24, 27, 31, 34, 38, 42, 47, 51, 56,
            60, 65, 70, 76, 81, 87, 93, 99
        ]
    );
    for (key, want) in [(0u64, 0u64), (1000, 0), (5000, 24), (7071, 49), (10000, 99), (20000, 99)] {
        assert_eq!(cubic.predict_to_int(key), want);
    }
    assert_eq!(largest_error(&cubic, &keys), 2);
    let line = train_model("linear", &data).unwrap();
    assert_eq!(largest_error(&line, &keys), 11);
}

#[test]
fn the_cubic_finds_a_cubic_again() {
    // at the anchor t the position curve stands at t * t * t / 8 + t
    let mut keys: Vec<u64> = Vec::new();
    for t in 0..33u64 {
        while (keys.len() as u64) < t * t * t / 8 + t + 1 {
            keys.push(100 * t);
        }
    }
    let cubic = train_model("cubic", &RMITrainingData::new(keys)).unwrap();
    let (xs, ys) = anchors(&cubic);
    for t in 0..33u64 {
        assert_eq!(xs[t as usize], 100 * t);
        assert!(ys[t as usize].abs_diff(t * t * t / 8 + t) <= 1);
    }
    assert_eq!(&ys[..8], &[0, 1, 2, 6, 11, 20, 32, 49]);
    assert_eq!(&ys[29..], &[3077, 3404, 3754, 4127]);
    assert_eq!(cubic.predict_to_int(1600), 527);
}

#[test]
fn a_cubic_that_would_fall_gives_way_to_the_line() {
    // the least-squares cubic of this bell turns down at both ends
    let keys: Vec<u64> = four_dice(10).into_iter().map(|s| 1000 * s).collect();
    let data = RMITrainingData::new(keys);
    let cubic = train_model("cubic", &data).unwrap();
    assert_eq!(cubic.kind, ModelKind::Cubic);
    assert_eq!(
        cubic.params(),
        vec![
            0,
            0,
            0,
            36000,
            16290923000000000000,
            164983500000000000000000,
            293236614000000000000000,
            33000000000000000000
        ]
    );
    // and so does a run of fewer than four pairs, or of one key
    let few = train_model("cubic", &RMITrainingData::new(vec![5, 9, 20])).unwrap();
    assert_eq!(few.params(), vec![5, 0, 0, 15, 135, 1086, 855, 1086]);
    let one_key = train_model("cubic", &RMITrainingData::new(vec![7, 7, 7, 7, 7])).unwrap();
    assert_eq!(one_key.params(), vec![2]);
}

#[test]
fn the_normal_curve_follows_a_bell() {
    let keys: Vec<u64> = four_dice(10).into_iter().map(|s| 1000 * s).collect();
    let data = RMITrainingData::new(keys.clone());
    let normal = train_model("normal", &data).unwrap();
    assert_eq!(normal.kind, ModelKind::Normal);
    let (xs, ys) = anchors(&normal);
    // mean 18000, deviation 5744
    assert_eq!(
        xs,
        vec![
            0, 0, 768, 3640, 6512, 9384, 12256, 15128, 18000, 20872, 23744, 26616, 29488, 32360,
            35232, 38104, 40976
        ]
    );
    assert_eq!(
        ys,
        vec![
            0, 2, 13, 62, 227, 667, 1586, 3085, 4999, 6913, 8412, 9331, 9771, 9936, 9985, 9996,
            9998
        ]
    );
    for (key, want) in
        [(0u64, 2u64), (9000, 608), (18000, 4999), (18500, 5332), (27000, 9389), (36000, 9987), (50000, 9998)]
    {
        assert_eq!(normal.predict_to_int(key), want);
    }
    assert_eq!(largest_error(&normal, &keys), 353);
    let line = train_model("linear", &data).unwrap();
    assert_eq!(largest_error(&line, &keys), 3886);
}

#[test]
fn the_lognormal_curve_follows_a_bell_of_logarithms() {
    let keys: Vec<u64> = four_dice(8).into_iter().map(|s| 1u64 << s).collect();
    let data = RMITrainingData::new(keys.clone());
    let lognormal = train_model("lognormal", &data).unwrap();
    assert_eq!(lognormal.kind, ModelKind::Lognormal);
    let (xs, ys) = anchors(&lognormal);
    assert_eq!(
        xs,
        vec![
            1, 1, 1, 6, 29, 144, 725, 3499, 16384, 84625, 414860, 1964864, 9773824, 48868864,
            234571776, 1115586560, 5713428480
        ]
    );
    assert_eq!(
        ys,
        vec![0, 0, 5, 25, 93, 273, 649, 1263, 2047, 2831, 3445, 3821, 4001, 4069, 4089, 4094, 4094]
    );
    for (key, want) in [
        (1u64, 5u64),
        (1 << 7, 247),
        (1 << 14, 2047),
        ((1 << 14) + 5000, 2104),
        (1 << 21, 3824),
        (1 << 28, 4089),
        (1 << 40, 4094),
    ] {
        assert_eq!(lognormal.predict_to_int(key), want);
    }
    assert_eq!(largest_error(&lognormal, &keys), 327);
    let line = train_model("linear", &data).unwrap();
    assert_eq!(largest_error(&line, &keys), 7688);
}

#[test]
fn the_logarithmic_line_is_exact_on_powers_of_two() {
    let keys: Vec<u64> = (0..40).map(|i| (1u64 << i) - 1).collect();
    let data = RMITrainingData::new(keys.clone());
    let model = train_model("loglinear", &data).unwrap();
    assert_eq!(model.kind, ModelKind::Loglinear);
    let (xs, ys) = anchors(&model);
    assert_eq!(xs.len(), 65);
    assert_eq!(&xs[..5], &[0, 1, 3, 7, 15]);
    assert_eq!(&xs[63..], &[9223372036854775807, 18446744073709551615]);
    for j in 0..65 {
        assert_eq!(ys[j], (j as u64).min(39));
    }
    assert_eq!(largest_error(&model, &keys), 0);
    for (key, want) in [(2u64, 1u64), (4, 2), (5, 2), (6, 2), (11, 3), (1000, 9), (1 << 50, 39)] {
        assert_eq!(model.predict_to_int(key), want);
    }
    let line = train_model("linear", &data).unwrap();
    assert_eq!(largest_error(&line, &keys), 18);
}

#[test]
fn the_curved_models_train_in_every_layer() {
    let keys: Vec<u64> = four_dice(10).into_iter().enumerate().map(|(i, s)| 100_000 * s + i as u64).collect();
    let data = RMITrainingData::new(keys.clone());
    for spec in [
        "cubic,linear",
        "normal,linear",
        "lognormal,linear",
        "loglinear,linear",
        "linear,cubic",
        "radix,normal",
        "cubic,loglinear,lognormal",
    ] {
        let rmi = train(&data, spec, 16).unwrap();
        assert_eq!(rmi.models, spec);
        let leaves = rmi.rmi.last().unwrap();
        let covered: usize = leaves.iter().map(|leaf| leaf.end - leaf.start).sum();
        assert_eq!(covered, keys.len());
        for (i, key) in keys.iter().enumerate() {
            let found = rmi.lookup(*key).unwrap();
            assert!(found.position <= i as u64 + found.left_radius);
            assert!(found.position + found.right_radius >= i as u64);
        }
    }
}

#[test]
fn the_standard_line_gives_way_to_the_extended() {
    // keys too far apart for the exact sums: both lines measure them in
    // the same coarser unit
    let keys: Vec<u64> = vec![0, 1 << 62, 3 << 62, u64::MAX];
    let data = RMITrainingData::new(keys.clone());
    let standard = train_model("linear", &data).unwrap();
    let extended = train_model("linear_big", &data).unwrap();
    assert_eq!(standard.kind, ModelKind::Linear);
    assert_eq!(extended.kind, ModelKind::LinearBig);
    assert_eq!(standard.params(), extended.params());
    assert!(standard.params()[1] > 0);
    for key in keys {
        assert_eq!(standard.predict_to_int(key), extended.predict_to_int(key));
    }
    // and where the exact sums can be had, both are the exact line
    let near = RMITrainingData::new(vec![0, 2, 4, 6]);
    assert_eq!(train_model("linear", &near).unwrap().params(), vec![0, 0, 0, 6, 160, 480, 480, 320]);
    assert_eq!(
        train_model("linear_big", &near).unwrap().params(),
        vec![0, 0, 0, 6, 160, 480, 480, 320]
    );
}

#[test]
fn keys_that_are_all_one_have_the_mean_position() {
    let data = RMITrainingData::new(vec![7, 7, 7, 7, 7]);
    for name in ["linear", "linear_big", "robust_linear", "cubic", "normal", "lognormal", "loglinear"] {
        let model = train_model(name, &data).unwrap();
        for key in [0u64, 7, 8, u64::MAX] {
            assert_eq!(model.predict_to_int(key), 2, "{} at {}", name, key);
        }
    }
}
