use rmi_lib::optimizer::configs::{first_phase_configs, second_phase_configs, text_less_exec};
use rmi_lib::optimizer::profile::{
    anywhere_layers, get_branching_factors, top_only_layers, OptimizerProfile,
};
use rmi_lib::optimizer::RMIStatistics;

#[test]
fn a_profile_is_read_from_its_name() {
    assert_eq!(OptimizerProfile::from_name(None), Some(OptimizerProfile::Standard));
    assert_eq!(OptimizerProfile::from_name(Some("fast")), Some(OptimizerProfile::Fast));
    assert_eq!(OptimizerProfile::from_name(Some("memory")), Some(OptimizerProfile::Memory));
    assert_eq!(OptimizerProfile::from_name(Some("disk")), Some(OptimizerProfile::Disk));
    assert_eq!(OptimizerProfile::from_name(Some("")), None);
    assert_eq!(OptimizerProfile::from_name(Some("Fast")), None);
    assert_eq!(OptimizerProfile::from_name(Some("default")), None);
}

#[test]
fn the_models_of_each_profile() {
    let standard = vec!["radix", "radix18", "radix22", "robust_linear"];
    assert_eq!(top_only_layers(OptimizerProfile::Standard), standard);
    assert_eq!(top_only_layers(OptimizerProfile::Memory), standard);
    assert_eq!(top_only_layers(OptimizerProfile::Fast), vec!["robust_linear"]);
    assert_eq!(
        top_only_layers(OptimizerProfile::Disk),
        vec!["radix", "radix18", "radix22", "robust_linear", "normal", "lognormal", "loglinear"]
    );
    let anywhere = vec!["linear", "cubic", "linear_spline"];
    assert_eq!(anywhere_layers(OptimizerProfile::Standard), anywhere);
    assert_eq!(anywhere_layers(OptimizerProfile::Memory), anywhere);
    assert_eq!(anywhere_layers(OptimizerProfile::Disk), anywhere);
    assert_eq!(anywhere_layers(OptimizerProfile::Fast), vec!["linear", "cubic"]);
}

#[test]
fn the_branching_factors_of_each_profile() {
    let standard: Vec<u64> = (6..25).map(|e| 1u64 << e).collect();
    assert_eq!(get_branching_factors(OptimizerProfile::Standard), standard);
    assert_eq!(get_branching_factors(OptimizerProfile::Memory), standard);
    let fast: Vec<u64> = (6..25).step_by(2).map(|e| 1u64 << e).collect();
    assert_eq!(get_branching_factors(OptimizerProfile::Fast), fast);
    assert_eq!(fast.len(), 10);
    let disk: Vec<u64> = (6..28).map(|e| 1u64 << e).collect();
    assert_eq!(get_branching_factors(OptimizerProfile::Disk), disk);
}

#[test]
fn the_first_phase_pairs_every_root_with_every_leaf() {
    let configs = first_phase_configs(OptimizerProfile::Standard);
    // 7 roots, 3 leaves, and the factors 2^6, 2^11, 2^16 and 2^21
    assert_eq!(configs.len(), 7 * 3 * 4);
    assert_eq!(configs[0], ("radix,linear".to_string(), 64));
    assert_eq!(configs[1], ("radix,linear".to_string(), 1 << 11));
    assert_eq!(configs[3], ("radix,linear".to_string(), 1 << 21));
    assert_eq!(configs[4], ("radix,cubic".to_string(), 64));
    assert_eq!(configs[12], ("radix18,linear".to_string(), 64));
    assert_eq!(configs[83], ("linear_spline,linear_spline".to_string(), 1 << 21));
    let fast = first_phase_configs(OptimizerProfile::Fast);
    // 3 roots, 2 leaves, and the factors 2^6 and 2^16
    assert_eq!(fast.len(), 3 * 2 * 2);
    assert_eq!(fast[0], ("robust_linear,linear".to_string(), 64));
    assert_eq!(fast[1], ("robust_linear,linear".to_string(), 1 << 16));
    assert_eq!(fast[11], ("cubic,cubic".to_string(), 1 << 16));
    let disk = first_phase_configs(OptimizerProfile::Disk);
    // 10 roots, 3 leaves, and the factors 2^6, 2^11, 2^16, 2^21 and 2^26
    assert_eq!(disk.len(), 10 * 3 * 5);
    assert_eq!(disk[149], ("linear_spline,linear_spline".to_string(), 1 << 26));
}

fn stat(models: &str, bf: u64, err: u64, size: u64) -> RMIStatistics {
    RMIStatistics {
        models: models.to_string(),
        branching_factor: bf,
        average_log2_error: err,
        max_log2_error: 0,
        size,
    }
}

#[test]
fn texts_in_the_order_of_a_dictionary() {
    assert!(text_less_exec("a", "b"));
    assert!(!text_less_exec("b", "a"));
    assert!(!text_less_exec("a", "a"));
    assert!(text_less_exec("", "a"));
    assert!(!text_less_exec("a", ""));
    assert!(text_less_exec("radix", "radix18"));
    assert!(text_less_exec("linear,linear", "linear_spline,linear"));
    assert!(text_less_exec("Z", "a"));
}

#[test]
fn the_second_phase_fills_in_the_frontier() {
    let first = vec![
        stat("radix,linear", 64, 500, 1000),
        stat("radix,linear", 1 << 11, 300, 5000),
        stat("linear,linear", 64, 400, 900),
        stat("linear,linear", 1 << 11, 400, 6000),
        stat("radix18,linear", 64, 900, 9000),
    ];
    let configs = second_phase_configs(&first, OptimizerProfile::Fast);
    // on the frontier: linear,linear at 64 and radix,linear at 2^11; the
    // names come in the order of a dictionary, each with the factors that
    // were not tried with it
    let mut want = Vec::new();
    for name in ["linear,linear", "radix,linear"] {
        for e in (6..25).step_by(2) {
            if e != 6 {
                want.push((name.to_string(), 1u64 << e));
            }
        }
    }
    assert_eq!(configs, want);
    assert_eq!(second_phase_configs(&[], OptimizerProfile::Standard), vec![]);
}
