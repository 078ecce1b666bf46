use rmi_lib::layers::split_layers;
use rmi_lib::multi_layer::{join_names, parse_kinds};
use rmi_lib::models::ModelKind;
use rmi_lib::train::{validate, TrainError};

fn names(list: &[&str]) -> Vec<String> {
    list.iter().map(|s| s.to_string()).collect()
}

#[test]
fn a_layer_list_is_cut_at_its_commas() {
    assert_eq!(split_layers("radix,linear"), names(&["radix", "linear"]));
    assert_eq!(split_layers("linear"), names(&["linear"]));
    assert_eq!(split_layers(""), names(&[""]));
    assert_eq!(split_layers("a,,b,"), names(&["a", "", "b", ""]));
    assert_eq!(split_layers(","), names(&["", ""]));
}

#[test]
fn cutting_and_joining_undo_each_other() {
    for text in ["radix,linear", "linear", "", "a,,b,", "pwl,pwl30,linear_spline"] {
        assert_eq!(join_names(&split_layers(text)), text);
    }
    let kinds = vec![ModelKind::Radix22, ModelKind::Pwl, ModelKind::LinearSpline];
    let written: Vec<String> = kinds.iter().map(|k| k.name().to_string()).collect();
    let text = join_names(&written);
    assert_eq!(text, "radix22,pwl,linear_spline");
    assert_eq!(parse_kinds(&split_layers(&text)), Some(kinds));
}

#[test]
fn names_that_call_no_model_have_no_kinds() {
    assert_eq!(parse_kinds(&names(&["linear", "nothing"])), None);
    assert_eq!(parse_kinds(&names(&[])), Some(vec![]));
}

#[test]
fn a_valid_list_keeps_each_model_in_its_place() {
    assert_eq!(validate(&names(&["radix", "linear"])), Ok(()));
    assert_eq!(validate(&names(&["radix18", "pwl", "linear_spline"])), Ok(()));
    assert_eq!(validate(&names(&["linear_spline"])), Ok(()));
    assert_eq!(validate(&names(&["radix"])), Ok(()));
    assert_eq!(validate(&names(&["cubic", "normal"])), Ok(()));
    assert_eq!(validate(&names(&[])), Ok(()));
}

#[test]
fn a_list_with_a_model_out_of_place_is_refused() {
    assert_eq!(validate(&names(&["linear", "radix"])), Err(TrainError::BadSpec));
    assert_eq!(validate(&names(&["linear", "radix22", "linear"])), Err(TrainError::BadSpec));
    assert_eq!(validate(&names(&["linear_spline", "linear"])), Err(TrainError::BadSpec));
    assert_eq!(validate(&names(&["linear", "linear_spline", "linear"])), Err(TrainError::BadSpec));
    assert_eq!(validate(&names(&["linear", ""])), Err(TrainError::BadSpec));
    assert_eq!(validate(&names(&["splines"])), Err(TrainError::BadSpec));
}
