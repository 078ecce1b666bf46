use rmi_lib::data::RMITrainingData;
use rmi_lib::optimizer::RMIStatistics;
use rmi_lib::report::{fixed5_string, JsonField};
use rmi_lib::text::{decimal_string, pad_left, str_equal};
use rmi_lib::train::{driver_validation, train};

#[test]
fn numbers_in_decimal_digits() {
    assert_eq!(decimal_string(0), "0");
    assert_eq!(decimal_string(7), "7");
    assert_eq!(decimal_string(10), "10");
    assert_eq!(decimal_string(1234567890), "1234567890");
    assert_eq!(decimal_string(u128::MAX), "340282366920938463463374607431768211455");
}

#[test]
fn text_is_padded_on_the_left() {
    assert_eq!(pad_left("42", false, 5), "   42");
    assert_eq!(pad_left("42", true, 5), "00042");
    assert_eq!(pad_left("12345", false, 5), "12345");
    assert_eq!(pad_left("123456", true, 5), "123456");
    assert_eq!(pad_left("", false, 2), "  ");
    assert_eq!(pad_left("", true, 0), "");
}

#[test]
fn texts_are_compared_by_their_bytes() {
    assert!(str_equal("", ""));
    assert!(str_equal("radix", "radix"));
    assert!(!str_equal("radix", "radiy"));
    assert!(!str_equal("radix", "radix18"));
}

#[test]
fn a_mean_error_with_five_decimals() {
    assert_eq!(fixed5_string(0), "0.00000");
    assert_eq!(fixed5_string(1 << 32), "1.00000");
    assert_eq!(fixed5_string(3 << 31), "1.50000");
    assert_eq!(fixed5_string((3 << 32) + (1 << 30)), "3.25000");
    assert_eq!(fixed5_string(1), "0.00000");
    assert_eq!(fixed5_string((1 << 32) - 1), "0.99999");
    assert_eq!(fixed5_string(42950), "0.00001");
    assert_eq!(fixed5_string(u64::MAX), "4294967295.99999");
}

fn text(field: &JsonField) -> &str {
    match field {
        JsonField::Text(s) => s,
        other => panic!("not a text: {:?}", other),
    }
}

fn digits(field: &JsonField) -> &str {
    match field {
        JsonField::Decimal(s) => s,
        other => panic!("not a number in digits: {:?}", other),
    }
}

#[test]
fn the_report_of_an_index() {
    let data = RMITrainingData::new(vec![0, 1, 2, 3, 10, 11, 12, 100]);
    let mut rmi = train(&data, "linear,linear", 2).unwrap();
    rmi.build_time = 123456789;
    let json = rmi.to_json();
    let names: Vec<&str> = json.fields.iter().map(|f| f.0.as_str()).collect();
    assert_eq!(
        names,
        vec![
            "num_rmi_rows",
            "num_data_rows",
            "model_total_error",
            "model_total_l2_error",
            "model_total_log2_error",
            "model_max_error",
            "model_max_error_idx",
            "model_max_log2_error",
            "last_layer_max_l1s",
            "third_layer_max_l1s",
            "models",
            "branching_factor",
            "build_time",
        ]
    );
    assert!(matches!(json.fields[0].1, JsonField::Number(n) if n == rmi.num_rmi_rows as u64));
    assert!(matches!(json.fields[1].1, JsonField::Number(8)));
    assert_eq!(digits(&json.fields[2].1), rmi.model_total_error.to_string());
    assert_eq!(digits(&json.fields[3].1), rmi.model_total_l2_error.to_string());
    assert_eq!(digits(&json.fields[4].1), rmi.model_total_log2_error.to_string());
    assert!(matches!(json.fields[5].1, JsonField::Number(n) if n == rmi.model_max_error));
    assert!(matches!(json.fields[6].1, JsonField::Number(n) if n == rmi.model_max_error_idx as u64));
    assert!(matches!(json.fields[7].1, JsonField::Number(n) if n == rmi.model_max_log2_error));
    match &json.fields[8].1 {
        JsonField::Texts(radii) => {
            let want: Vec<String> = rmi.last_layer_max_l1s.iter().map(|r| r.to_string()).collect();
            assert_eq!(radii, &want);
        }
        other => panic!("not texts: {:?}", other),
    }
    assert!(matches!(&json.fields[9].1, JsonField::Texts(radii) if radii.is_empty()));
    assert_eq!(text(&json.fields[10].1), "linear,linear");
    assert_eq!(text(&json.fields[11].1), "2");
    assert_eq!(text(&json.fields[12].1), "123456789");
}

#[test]
fn the_report_of_a_validation() {
    let data = RMITrainingData::new((0..100u64).collect());
    let two = driver_validation(&data, "radix,linear", 4).unwrap().to_json();
    let names: Vec<&str> = two.iter().map(|f| f.0.as_str()).collect();
    assert_eq!(
        names,
        vec!["multi_layer", "two_layer", "three_layer", "naive_three_layer", "partial_three_layer"]
    );
    let there: Vec<bool> = two.iter().map(|f| f.1.is_some()).collect();
    assert_eq!(there, vec![true, true, false, false, false]);
    assert_eq!(text(&two[1].1.as_ref().unwrap().fields[10].1), "radix,linear");
    let three = driver_validation(&data, "radix,linear,linear", 4).unwrap().to_json();
    assert!(three.iter().all(|f| f.1.is_some()));
    assert_eq!(three[3].1.as_ref().unwrap().fields.len(), 13);
}

fn stat(models: &str, bf: u64, err: u64, max: u64, size: u64) -> RMIStatistics {
    RMIStatistics {
        models: models.to_string(),
        branching_factor: bf,
        average_log2_error: err,
        max_log2_error: max,
        size,
    }
}

#[test]
fn the_entry_of_a_configuration() {
    let entry = stat("radix,linear", 256, (3 << 32) + (1 << 31), 9, 12345).to_grid_spec("books_0");
    let names: Vec<&str> = entry.fields.iter().map(|f| f.0.as_str()).collect();
    assert_eq!(
        names,
        vec!["layers", "branching factor", "namespace", "size", "average log2 error", "binary"]
    );
    assert_eq!(text(&entry.fields[0].1), "radix,linear");
    assert!(matches!(entry.fields[1].1, JsonField::Number(256)));
    assert_eq!(text(&entry.fields[2].1), "books_0");
    assert!(matches!(entry.fields[3].1, JsonField::Number(12345)));
    assert_eq!(digits(&entry.fields[4].1), "3.50000");
    assert!(matches!(entry.fields[5].1, JsonField::Flag(true)));
}

#[test]
fn the_table_of_results() {
    let rows = RMIStatistics::display_table(&[
        stat("radix,linear", 256, (3 << 32) + (1 << 30), 9, 12345),
        stat("linear,cubic", 16777216, 0, 0, 7),
    ]);
    assert_eq!(
        rows,
        vec![
            vec!["Models", "Branch", "   AvgLg2", "   MaxLg2", "   Size (b)"],
            vec!["radix,linear", "       256", "     3.25000", "     9", "     12345"],
            vec!["linear,cubic", "  16777216", "     0.00000", "     0", "     7"],
        ]
    );
    assert_eq!(RMIStatistics::display_table(&[]).len(), 1);
}

#[test]
fn a_clock_that_went_back_gives_the_longest_build_time() {
    assert_eq!(rmi_lib::clock::nanos_or_max(Some(0)), 0);
    assert_eq!(rmi_lib::clock::nanos_or_max(Some(1_500_000)), 1_500_000);
    assert_eq!(rmi_lib::clock::nanos_or_max(None), u128::MAX);
}
