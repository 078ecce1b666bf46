use rmi_lib::data::RMITrainingData;
use rmi_lib::models::{ModelForm, ModelKind, ModelRestriction};
use rmi_lib::train::{train_model, train_model_big, TrainError};

#[test]
fn every_kind_has_its_name() {
    let kinds = [
        (ModelKind::Linear, "linear"),
        (ModelKind::LinearBig, "linear_big"),
        (ModelKind::RobustLinear, "robust_linear"),
        (ModelKind::LinearSpline, "linear_spline"),
        (ModelKind::Cubic, "cubic"),
        (ModelKind::Pwl, "pwl"),
        (ModelKind::Pwl30, "pwl30"),
        (ModelKind::Normal, "normal"),
        (ModelKind::Lognormal, "lognormal"),
        (ModelKind::Loglinear, "loglinear"),
        (ModelKind::Radix, "radix"),
        (ModelKind::Radix18, "radix18"),
        (ModelKind::Radix22, "radix22"),
    ];
    for (kind, name) in kinds {
        assert_eq!(kind.name(), name);
        assert_eq!(ModelKind::from_name(name), Some(kind));
    }
    assert_eq!(ModelKind::from_name("Linear"), None);
    assert_eq!(ModelKind::from_name(""), None);
    assert_eq!(ModelKind::from_name("radix1"), None);
}

#[test]
fn the_restrictions_follow_the_kinds() {
    assert_eq!(ModelKind::Radix.restriction(), ModelRestriction::RootOnly);
    assert_eq!(ModelKind::Radix18.restriction(), ModelRestriction::RootOnly);
    assert_eq!(ModelKind::Radix22.restriction(), ModelRestriction::RootOnly);
    assert_eq!(ModelKind::LinearSpline.restriction(), ModelRestriction::LeafOnly);
    assert_eq!(ModelKind::Linear.restriction(), ModelRestriction::Unrestricted);
    assert_eq!(ModelKind::Cubic.restriction(), ModelRestriction::Unrestricted);
}

#[test]
fn a_line_through_collinear_points_is_exact() {
    let data = RMITrainingData::new(vec![0, 2, 4, 6]);
    let model = train_model("linear", &data).unwrap();
    assert_eq!(model.kind, ModelKind::Linear);
    match &model.form {
        ModelForm::Line { x0, shift, y0, umax, a, c_plus, c_minus, d } => {
            assert_eq!((*x0, *shift, *y0, *umax), (0, 0, 0, 6));
            assert_eq!((*a, *c_plus, *c_minus, *d), (160, 480, 480, 320));
        }
        other => panic!("not a line: {:?}", other),
    }
    assert_eq!(model.predict_to_int(0), 0);
    assert_eq!(model.predict_to_int(3), 1);
    assert_eq!(model.predict_to_int(4), 2);
    assert_eq!(model.predict_to_int(6), 3);
    // beyond the last key the line stays at its end
    assert_eq!(model.predict_to_int(1000), 3);
    assert_eq!(model.size_in_bytes(), 96);
}

#[test]
fn least_squares_on_scattered_points() {
    // offsets 0, 1, 2 and positions 0, 1, 2 shifted: keys 10, 11, 14
    let data = RMITrainingData::new(vec![10, 11, 14]);
    let model = train_model("linear", &data).unwrap();
    // n = 3, su = 5, sv = 3, suu = 17, suv = 9: slope 12 / 26
    match &model.form {
        ModelForm::Line { a, c_plus, c_minus, d, umax, .. } => {
            assert_eq!((*a, *d), (36, 78));
            assert_eq!((*c_plus, *c_minus), (78, 60));
            assert_eq!(*umax, 4);
        }
        other => panic!("not a line: {:?}", other),
    }
    assert_eq!(model.predict_to_int(10), 0);
    assert_eq!(model.predict_to_int(11), 0);
    assert_eq!(model.predict_to_int(14), 2);
}

#[test]
fn equal_keys_give_the_mean_position() {
    let data = RMITrainingData::new(vec![7, 7, 7, 7]);
    let model = train_model("linear", &data).unwrap();
    match &model.form {
        ModelForm::Constant { value } => assert_eq!(*value, 1),
        other => panic!("not a constant: {:?}", other),
    }
    assert_eq!(model.size_in_bytes(), 8);
}

#[test]
fn no_pair_and_one_pair_give_constants() {
    let none = train_model("pwl", &RMITrainingData::empty()).unwrap();
    assert_eq!(none.predict_to_int(5), 0);
    let one = train_model("radix", &RMITrainingData::new(vec![9])).unwrap();
    assert_eq!(one.predict_to_int(0), 0);
    assert_eq!(one.predict_to_int(9), 0);
}

#[test]
fn a_spline_joins_the_ends() {
    let data = RMITrainingData::new(vec![10, 20, 40]);
    let model = train_model("linear_spline", &data).unwrap();
    match &model.form {
        ModelForm::Segments { xs, ys } => {
            assert_eq!(xs, &vec![10, 40]);
            assert_eq!(ys, &vec![0, 2]);
        }
        other => panic!("not segments: {:?}", other),
    }
    assert_eq!(model.predict_to_int(5), 0);
    assert_eq!(model.predict_to_int(10), 0);
    assert_eq!(model.predict_to_int(25), 1);
    assert_eq!(model.predict_to_int(39), 1);
    assert_eq!(model.predict_to_int(40), 2);
    assert_eq!(model.predict_to_int(41), 2);
    assert_eq!(model.size_in_bytes(), 32);
}

#[test]
fn piecewise_lines_run_through_their_anchors() {
    let keys: Vec<u64> = (0..57).map(|i| i * i).collect();
    let data = RMITrainingData::new(keys.clone());
    let model = train_model("pwl", &data).unwrap();
    match &model.form {
        ModelForm::Segments { xs, ys } => {
            assert_eq!(xs.len(), 29);
            // 28 segments over 57 points: every second point is an anchor
            for j in 0..29 {
                assert_eq!(xs[j], keys[2 * j]);
                assert_eq!(ys[j], 2 * j as u64);
            }
        }
        other => panic!("not segments: {:?}", other),
    }
    let model30 = train_model("pwl30", &data).unwrap();
    match &model30.form {
        ModelForm::Segments { xs, .. } => assert_eq!(xs.len(), 31),
        other => panic!("not segments: {:?}", other),
    }
    for (i, key) in keys.iter().enumerate() {
        let p = model.predict_to_int(*key);
        assert!(p.abs_diff(i as u64) <= 1);
    }
}

#[test]
fn a_radix_model_spreads_the_leading_bits() {
    let keys: Vec<u64> = (0..256).collect();
    let data = RMITrainingData::new(keys);
    let model = train_model("radix18", &data).unwrap();
    match &model.form {
        ModelForm::Radix { shift, top, y0, span } => {
            assert_eq!((*shift, *top, *y0, *span), (0, 255, 0, 256));
        }
        other => panic!("not a radix model: {:?}", other),
    }
    assert_eq!(model.predict_to_int(0), 0);
    assert_eq!(model.predict_to_int(100), 100);
    assert_eq!(model.predict_to_int(255), 255);
    assert_eq!(model.predict_to_int(70_000), 255);

    // keys of 20 bits, 4 leading bits kept by the plain radix model of 9 pairs
    let wide = RMITrainingData::new(vec![0, 1 << 16, 2 << 16, 3 << 16, 4 << 16, 5 << 16, 6 << 16, 7 << 16, 0xf_ffff]);
    let radix = train_model("radix", &wide).unwrap();
    match &radix.form {
        ModelForm::Radix { shift, top, y0, span } => {
            assert_eq!((*shift, *top, *y0, *span), (16, 15, 0, 9));
        }
        other => panic!("not a radix model: {:?}", other),
    }
    assert_eq!(radix.predict_to_int(0), 0);
    assert_eq!(radix.predict_to_int(8 << 16), 4);
    assert_eq!(radix.predict_to_int(0xf_ffff), 8);
    assert_eq!(radix.size_in_bytes(), 32);
}

#[test]
fn wide_key_ranges_are_measured_more_coarsely() {
    let keys: Vec<u64> = (0..64).map(|i| i * (u64::MAX / 64)).collect();
    let data = RMITrainingData::new(keys.clone());
    let model = train_model("linear", &data).unwrap();
    let big = train_model_big("linear", &data).unwrap();
    assert_eq!(big.kind, ModelKind::LinearBig);
    match (&model.form, &big.form) {
        (ModelForm::Line { shift: s1, .. }, ModelForm::Line { shift: s2, .. }) => {
            assert!(*s1 > 0);
            assert_eq!(s1, s2);
        }
        other => panic!("not lines: {:?}", other),
    }
    for (i, key) in keys.iter().enumerate() {
        assert!(model.predict_to_int(*key).abs_diff(i as u64) <= 1);
        assert_eq!(model.predict_to_int(*key), big.predict_to_int(*key));
    }
}

#[test]
fn the_robust_line_leaves_out_the_ends() {
    // 200 keys on a line but for the first two and the last two
    let mut keys: Vec<u64> = (0..200).map(|i| 1000 + 10 * i).collect();
    keys[0] = 0;
    keys[1] = 1;
    keys[198] = 1_000_000;
    keys[199] = 2_000_000;
    let data = RMITrainingData::new(keys.clone());
    let robust = train_model("robust_linear", &data).unwrap();
    assert_eq!(robust.kind, ModelKind::RobustLinear);
    for i in 2..198 {
        assert!(robust.predict_to_int(keys[i]).abs_diff(i as u64) <= 1);
    }
}

#[test]
fn every_listed_name_trains_and_no_other() {
    let data = RMITrainingData::new(vec![1, 2, 3, 5, 8, 13, 21, 34]);
    assert_eq!(train_model("quadratic", &data).err(), Some(TrainError::BadSpec));
    assert_eq!(train_model("", &data).err(), Some(TrainError::BadSpec));
    for (name, kind, restriction) in [
        ("linear", ModelKind::Linear, ModelRestriction::Unrestricted),
        ("linear_big", ModelKind::LinearBig, ModelRestriction::Unrestricted),
        ("robust_linear", ModelKind::RobustLinear, ModelRestriction::Unrestricted),
        ("linear_spline", ModelKind::LinearSpline, ModelRestriction::LeafOnly),
        ("cubic", ModelKind::Cubic, ModelRestriction::Unrestricted),
        ("pwl", ModelKind::Pwl, ModelRestriction::Unrestricted),
        ("pwl30", ModelKind::Pwl30, ModelRestriction::Unrestricted),
        ("normal", ModelKind::Normal, ModelRestriction::Unrestricted),
        ("lognormal", ModelKind::Lognormal, ModelRestriction::Unrestricted),
        ("loglinear", ModelKind::Loglinear, ModelRestriction::Unrestricted),
        ("radix", ModelKind::Radix, ModelRestriction::RootOnly),
        ("radix18", ModelKind::Radix18, ModelRestriction::RootOnly),
        ("radix22", ModelKind::Radix22, ModelRestriction::RootOnly),
    ] {
        let model = train_model(name, &data).unwrap();
        assert_eq!(model.kind, kind);
        assert_eq!(model.restriction(), restriction);
        assert!(model.form.well_formed());
        // an empty run and a single point give constants
        let none = train_model(name, &RMITrainingData::new(vec![])).unwrap();
        assert_eq!(none.params(), vec![0]);
        let one = train_model(name, &RMITrainingData::new(vec![77])).unwrap();
        assert_eq!(one.predict_to_int(5), 0);
    }
    assert_eq!(train_model_big("linear_big", &data).err(), Some(TrainError::BadSpec));
    assert_eq!(train_model_big("pwl", &data).err(), Some(TrainError::BadSpec));
    assert!(train_model_big("linear", &data).is_ok());
}

#[test]
fn the_parameters_of_each_form() {
    let line = train_model("linear", &RMITrainingData::new(vec![0, 2, 4, 6])).unwrap();
    assert_eq!(line.params(), vec![0, 0, 0, 6, 160, 480, 480, 320]);
    let spline = train_model("linear_spline", &RMITrainingData::new(vec![10, 20, 40])).unwrap();
    assert_eq!(spline.params(), vec![10, 0, 40, 2]);
    let radix = train_model("radix18", &RMITrainingData::new((0..256).collect())).unwrap();
    assert_eq!(radix.params(), vec![0, 255, 0, 256]);
    let constant = train_model("linear", &RMITrainingData::new(vec![7, 7, 7, 7])).unwrap();
    assert_eq!(constant.params(), vec![1]);
}
