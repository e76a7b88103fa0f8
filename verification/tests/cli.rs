use lidar_point_cloud_classifier::cli::args::{
    next_value, parse_optional_bool, parse_positive_usize, parse_u64, parse_usize, require_value,
    wants_help, Command, DevicePreference,
};
use lidar_point_cloud_classifier::cli::classify_cmd::{
    resolve_fusion_radius, validate_fusion_temp,
};
use lidar_point_cloud_classifier::cli::dispatch::{dispatch_classify, dispatch_train, Dispatch, SubCommand};
use lidar_point_cloud_classifier::cli::split_dataset_cmd::{check_split, resolve_inputs};
use lidar_point_cloud_classifier::cli::train_cmd::{
    block_set, effective_forward_batch_size, read_val_tile_blocks,
};
use lidar_point_cloud_classifier::cli::{
    classify_cmd, evaluate_cmd, fix_label_map_cmd, preprocess_cmd, preprocess_labeled_cmd,
    split_dataset_cmd, train_cmd,
};
use lidar_point_cloud_classifier::error::ClassifierError;
use lidar_point_cloud_classifier::ieee::{Real32, Real64};
use lidar_point_cloud_classifier::preprocessing::config::HagNormalization;
use lidar_point_cloud_classifier::preprocessing::pipeline::BlockManifest;

fn num(x: f64) -> Real64 {
    Real64 { bits: x.to_bits() }
}

fn number(s: &str) -> Option<Real64> {
    s.parse::<f64>().ok().map(num)
}

fn single(s: &str) -> Option<Real32> {
    s.parse::<f32>().ok().map(|x| Real32 { bits: x.to_bits() })
}

fn words(list: &[&str]) -> Vec<String> {
    list.iter().map(|s| s.to_string()).collect()
}

fn text(e: ClassifierError) -> String {
    e.message()
}

fn manifest_with(block_size: f64, block_overlap: f64) -> BlockManifest {
    BlockManifest {
        source: "t.las".to_string(),
        block_size: num(block_size),
        target_points: 4,
        min_density: num(1.0),
        search_radius: num(1.0),
        min_neighbors: 1,
        crs_epsg: None,
        grid_cols: 1,
        grid_rows: 1,
        grid_x_min: num(0.0),
        grid_y_min: num(0.0),
        outlier_removal: false,
        outlier_radius: num(2.0),
        outlier_elev_diff: num(50.0),
        outlier_use_median: false,
        block_overlap: num(block_overlap),
        oversample_jitter: num(0.0),
        z_norm_use_block_relative: false,
        halo_fraction: num(0.0),
        blocks: Vec::new(),
    }
}

fn show(x: Real64) -> String {
    f64::from_bits(x.bits).to_string()
}

fn radius(explicit: Option<f64>, m: &BlockManifest) -> Result<f64, ClassifierError> {
    resolve_fusion_radius(explicit.map(num), m, show).map(|r| f64::from_bits(r.bits))
}

fn temp(explicit: Option<f64>) -> Result<f64, ClassifierError> {
    validate_fusion_temp(Command::Classify, explicit.map(num), show).map(|r| f64::from_bits(r.bits))
}

// ── classify ────────────────────────────────────────────────────────────────

#[test]
fn test_fusion_radius_defaults_to_zero_without_overlap() {
    let m = manifest_with(50.0, 0.0);
    assert_eq!(radius(None, &m).unwrap(), 0.0);
}

#[test]
fn test_fusion_radius_defaults_to_manifest_block_overlap() {
    let m = manifest_with(50.0, 12.5);
    assert_eq!(radius(None, &m).unwrap(), 12.5);
}

#[test]
fn test_fusion_radius_explicit_overrides_manifest() {
    let m = manifest_with(50.0, 12.5);
    assert_eq!(radius(Some(5.0), &m).unwrap(), 5.0);
    assert_eq!(radius(Some(0.0), &m).unwrap(), 0.0);
}

#[test]
fn test_fusion_radius_rejects_negative_nan_and_too_large() {
    let m = manifest_with(50.0, 0.0);
    assert!(radius(Some(-1.0), &m).is_err());
    assert!(radius(Some(f64::NAN), &m).is_err());
    assert!(radius(Some(f64::INFINITY), &m).is_err());
    assert!(radius(Some(25.0), &m).is_ok());
    assert!(radius(Some(25.001), &m).is_err());
}

#[test]
fn fusion_radius_faults_name_the_values() {
    let m = manifest_with(50.0, 0.0);
    assert_eq!(
        text(radius(Some(-1.5), &m).unwrap_err()),
        "Pipeline error: classify: --fusion-radius must be finite and >= 0.0, got -1.5"
    );
    assert_eq!(
        text(radius(Some(30.0), &m).unwrap_err()),
        "Pipeline error: classify: --fusion-radius (30) exceeds block_size/2 (25); the voting \
         reach may be at most half the block size"
    );
    assert_eq!(
        text(temp(Some(0.0)).unwrap_err()),
        "Pipeline error: classify: --fusion-temp must be finite and > 0.0, got 0"
    );
    assert_eq!(
        text(validate_fusion_temp(Command::Evaluate, Some(num(-0.5)), show).unwrap_err()),
        "Pipeline error: evaluate: --fusion-temp must be finite and > 0.0, got -0.5"
    );
}

#[test]
fn test_fusion_temp_validation() {
    assert_eq!(temp(None).unwrap(), 1.0);
    assert_eq!(temp(Some(2.5)).unwrap(), 2.5);
    assert!(temp(Some(0.0)).is_err());
    assert!(temp(Some(-0.5)).is_err());
    assert!(temp(Some(f64::NAN)).is_err());
}

fn classify_base() -> Vec<String> {
    words(&[
        "--input", "in.las", "--model", "m.wbmodel", "--blocks", "blocks.json", "--output",
        "out.las",
    ])
}

#[test]
fn test_parse_args_ok_with_fusion_flags() {
    let mut args = classify_base();
    args.extend(words(&["--fusion-radius", "10.5", "--fusion-temp", "0.8"]));
    let cfg = classify_cmd::parse_args(&args, number).expect("parse must succeed");
    assert_eq!(cfg.fusion_radius, Some(num(10.5)));
    assert_eq!(cfg.fusion_temp, Some(num(0.8)));
}

#[test]
fn test_parse_args_fusion_flags_default_none() {
    let cfg = classify_cmd::parse_args(&classify_base(), number).expect("parse must succeed");
    assert_eq!(cfg.fusion_radius, None);
    assert_eq!(cfg.fusion_temp, None);
    assert_eq!(cfg.input, "in.las");
    assert_eq!(cfg.model, "m.wbmodel");
    assert_eq!(cfg.blocks, "blocks.json");
    assert_eq!(cfg.output, "out.las");
}

#[test]
fn test_parse_args_rejects_bad_fusion_values_and_unknown_flags() {
    let mut args = classify_base();
    args.extend(words(&["--fusion-radius", "abc"]));
    assert!(classify_cmd::parse_args(&args, number).is_err());

    let mut args = classify_base();
    args.extend(words(&["--bogus"]));
    assert!(classify_cmd::parse_args(&args, number).is_err());
}

#[test]
fn classify_writes_laz_only_when_told() {
    let cfg = classify_cmd::parse_args(&classify_base(), number).expect("parse must succeed");
    assert!(!cfg.allow_laz);
    let mut args = classify_base();
    args.push("--allow-laz".to_string());
    let cfg = classify_cmd::parse_args(&args, number).expect("parse must succeed");
    assert!(cfg.allow_laz);
}

#[test]
fn classify_requires_each_path_in_order() {
    let all = classify_base();
    let names = ["--input", "--model", "--blocks", "--output"];
    for k in 0..4usize {
        let args: Vec<String> = all[..2 * k].to_vec();
        let e = classify_cmd::parse_args(&args, number).unwrap_err();
        assert_eq!(text(e), format!("Pipeline error: classify: {} is required", names[k]));
    }
    let mut args = classify_base();
    args.extend(words(&["--threads", "0"]));
    let e = classify_cmd::parse_args(&args, number).unwrap_err();
    assert_eq!(text(e), "Pipeline error: classify: --threads must be >= 1");
}

// ── evaluate ────────────────────────────────────────────────────────────────

fn evaluate_base() -> Vec<String> {
    words(&[
        "--model", "m.wbmodel", "--data-dir", "test", "--metrics-out", "m.csv",
        "--confusion-out", "c.csv",
    ])
}

#[test]
fn evaluate_cmd_test_parse_args_requires_data_dir() {
    let args = words(&[
        "--model", "m.wbmodel", "--metrics-out", "m.csv", "--confusion-out", "c.csv",
    ]);
    let result = evaluate_cmd::parse_args(&args, number);
    assert!(result.is_err());
    assert!(text(result.unwrap_err()).contains("--data-dir is required"));
}

#[test]
fn test_parse_args_rejects_unknown_flag() {
    assert!(evaluate_cmd::parse_args(&words(&["--bogus"]), number).is_err());
}

#[test]
fn test_parse_args_ok() {
    let cfg = evaluate_cmd::parse_args(&evaluate_base(), number).expect("parse");
    assert_eq!(cfg.data_dirs.len(), 1);
    assert!(cfg.n_classes.is_none());
    assert!(!cfg.fused_eval);
    assert!(cfg.fusion_radius.is_none());
    assert!(cfg.fusion_temp.is_none());
}

#[test]
fn test_parse_args_fusion_flags_require_fused_eval() {
    let mut args = evaluate_base();
    args.extend(words(&["--fusion-radius", "10.0"]));
    assert!(evaluate_cmd::parse_args(&args, number).is_err());

    let mut args = evaluate_base();
    args.extend(words(&["--fusion-temp", "0.8"]));
    assert!(evaluate_cmd::parse_args(&args, number).is_err());
}

#[test]
fn test_parse_args_fused_eval_with_fusion_flags() {
    let mut args = evaluate_base();
    args.extend(words(&["--fused-eval", "--fusion-radius", "12.5", "--fusion-temp", "0.8"]));
    let cfg = evaluate_cmd::parse_args(&args, number).expect("parse");
    assert!(cfg.fused_eval);
    assert_eq!(cfg.fusion_radius, Some(num(12.5)));
    assert_eq!(cfg.fusion_temp, Some(num(0.8)));
}

// ── fix-label-map ───────────────────────────────────────────────────────────

#[test]
fn fix_label_map_cmd_test_parse_args_requires_data_dir() {
    let result = fix_label_map_cmd::parse_args(&words(&["--model", "m.wbmodel"]));
    assert!(result.is_err());
    assert!(text(result.unwrap_err()).contains("--data-dir is required"));
}

#[test]
fn test_parse_args_requires_model() {
    let result = fix_label_map_cmd::parse_args(&words(&["--data-dir", "d"]));
    assert!(result.is_err());
    assert!(text(result.unwrap_err()).contains("--model is required"));
}

// ── preprocess ──────────────────────────────────────────────────────────────

#[test]
fn preprocess_reads_a_full_command_line() {
    let args = words(&[
        "--input", "in.las", "--output", "out", "--block-size", "20", "--target-points", "1024",
        "--block-overlap", "2.5", "--debug-csv",
    ]);
    let cfg = preprocess_cmd::parse_args(&args, number).expect("parse");
    assert_eq!(cfg.input, "in.las");
    assert_eq!(cfg.output_dir, "out");
    assert_eq!(cfg.block_size, num(20.0));
    assert_eq!(cfg.target_points, 1024);
    assert_eq!(cfg.block_overlap, num(2.5));
    assert!(cfg.debug_csv);
    assert_eq!(cfg.hag_normalization, HagNormalization::FixedMeters(num(50.0)));
    assert!(preprocess_cmd::parse_args(&words(&["--input", "in.las"]), number).is_err());
    assert!(preprocess_cmd::parse_args(&words(&[]), number).is_err());
}

#[test]
fn preprocess_labeled_cmd_test_trailing_flag_without_value_errors_not_panics() {
    let args = words(&["--input"]);
    let mut i = 0usize;
    let result = next_value(&args, &mut i, "--input");
    assert!(result.is_err());
}

#[test]
fn preprocess_labeled_cmd_test_run_with_trailing_flag_returns_error() {
    assert!(preprocess_labeled_cmd::parse_args(&words(&["--block-size"]), number).is_err());
}

#[test]
fn preprocess_labeled_defaults_to_four_tiles_a_side() {
    let a = preprocess_labeled_cmd::parse_args(
        &words(&["--input", "in.las", "--output", "out"]),
        number,
    )
    .expect("parse");
    assert_eq!(a.tile_grid, 4);
    assert!(a.label_map_path.is_none());
    let a = preprocess_labeled_cmd::parse_args(
        &words(&[
            "--input", "in.las", "--output", "out", "--tile-grid", "8", "--label-map", "m.json",
        ]),
        number,
    )
    .expect("parse");
    assert_eq!(a.tile_grid, 8);
    assert_eq!(a.label_map_path, Some("m.json".to_string()));
}

// ── split-dataset ───────────────────────────────────────────────────────────

#[test]
fn split_dataset_cmd_test_trailing_flag_without_value_errors_not_panics() {
    let args = words(&["--input"]);
    let mut i = 0usize;
    let result = next_value(&args, &mut i, "--input");
    assert!(result.is_err());
}

#[test]
fn split_dataset_cmd_test_run_with_trailing_flag_returns_error() {
    assert!(split_dataset_cmd::parse_args(&words(&["--val-split"]), number).is_err());
}

#[test]
fn test_run_rejects_missing_required_flags() {
    let a = split_dataset_cmd::parse_args(&words(&[]), number).expect("parse");
    assert!(resolve_inputs(&Vec::new(), &a.inputs).is_err());
    assert!(check_split(&a, false).is_err());
}

#[test]
fn test_run_rejects_missing_input_even_with_output() {
    let a = split_dataset_cmd::parse_args(&words(&["--output", "out"]), number).expect("parse");
    assert!(resolve_inputs(&Vec::new(), &a.inputs).is_err());
}

#[test]
fn test_run_rejects_empty_input_list_and_no_input() {
    let lists = vec!["# just a comment\n\n   \n".to_string()];
    assert!(resolve_inputs(&lists, &Vec::new()).is_err());
}

#[test]
fn test_input_list_parsing_skips_blank_and_comment_lines() {
    let lists = vec![
        "# comment line\n\n  \nC:/some/dir/a\n# another comment\nC:/some/dir/b\n\n".to_string(),
    ];
    let parsed = resolve_inputs(&lists, &Vec::new()).expect("inputs");
    assert_eq!(parsed, words(&["C:/some/dir/a", "C:/some/dir/b"]));
}

#[test]
fn test_multiple_input_list_files_concatenate_in_order() {
    let lists = vec!["dir_one\ndir_two\n".to_string(), "dir_three\n".to_string()];
    let combined = resolve_inputs(&lists, &Vec::new()).expect("inputs");
    assert_eq!(combined, words(&["dir_one", "dir_two", "dir_three"]));
}

#[test]
fn test_input_list_combined_with_explicit_input_flag() {
    let a = split_dataset_cmd::parse_args(
        &words(&[
            "--input-list", "inputs.txt", "--input", "dir_b", "--output", "out", "--val-split",
            "0.25", "--seed", "3",
        ]),
        number,
    )
    .expect("parse");
    assert_eq!(a.input_lists, words(&["inputs.txt"]));
    assert_eq!(a.seed, 3);
    let lists = vec!["dir_a\n".to_string()];
    let inputs = resolve_inputs(&lists, &a.inputs).expect("inputs");
    assert_eq!(inputs, words(&["dir_a", "dir_b"]));
    assert!(check_split(&a, false).is_ok());
}

#[test]
fn input_lists_end_lines_at_carriage_returns_too() {
    let lists = vec!["one\r\n  two\t\r\n#three\r\n".to_string()];
    assert_eq!(resolve_inputs(&lists, &Vec::new()).unwrap(), words(&["one", "two"]));
}

#[test]
fn check_split_names_the_first_fault() {
    let parse = |list: &[&str]| split_dataset_cmd::parse_args(&words(list), number).unwrap();
    let a = parse(&["--output", "o", "--val-split", "1.0"]);
    assert_eq!(
        text(check_split(&a, true).unwrap_err()),
        "Pipeline error: --val-split must be in the range [0.0, 1.0) and finite"
    );
    let a = parse(&["--output", "o", "--test-split", "-0.1"]);
    assert_eq!(
        text(check_split(&a, false).unwrap_err()),
        "Pipeline error: --test-split must be in the range [0.0, 1.0) and finite"
    );
    let a = parse(&["--output", "o", "--val-split", "0.6", "--test-split", "0.4"]);
    assert_eq!(
        text(check_split(&a, true).unwrap_err()),
        "Pipeline error: --val-split + --test-split must be < 1.0 (the training set would otherwise be empty)"
    );
    let a = parse(&[]);
    assert_eq!(text(check_split(&a, false).unwrap_err()), "Pipeline error: --output is required");
}

// ── train ───────────────────────────────────────────────────────────────────

#[test]
fn train_cmd_test_trailing_flag_without_value_errors_not_panics() {
    let args = words(&["--data-dir"]);
    let mut i = 0usize;
    let result = next_value(&args, &mut i, "--data-dir");
    assert!(result.is_err());
}

#[test]
fn train_cmd_test_run_with_trailing_flag_returns_error() {
    assert!(train_cmd::parse_args(&words(&["--epochs"]), number, single).is_err());
}

#[test]
fn test_effective_forward_batch_size_is_min_of_both() {
    assert_eq!(effective_forward_batch_size(16, 8), 8);
    assert_eq!(effective_forward_batch_size(4, 8), 4);
    assert_eq!(effective_forward_batch_size(1, 8), 1);
    assert_eq!(effective_forward_batch_size(8, 1), 1);
    assert_eq!(effective_forward_batch_size(8, 8), 8);
}

#[test]
fn test_effective_forward_batch_size_floors_zero_inputs_at_one() {
    assert_eq!(effective_forward_batch_size(0, 8), 1);
    assert_eq!(effective_forward_batch_size(8, 0), 1);
    assert_eq!(effective_forward_batch_size(0, 0), 1);
}

#[test]
fn train_defaults_are_the_documented_ones() {
    let a = train_cmd::parse_args(&words(&["--data-dir", "d", "--output-model", "m"]), number, single).expect("parse");
    assert_eq!(a.output_model, Some("m".to_string()));
    assert_eq!(a.n_classes, 8);
    assert_eq!(a.epochs, 50);
    assert_eq!(a.batch_size, 16);
    assert_eq!(a.forward_batch_size, 8);
    assert_eq!(a.learning_rate, num(1e-3));
    assert_eq!(a.weight_decay, Real32 { bits: 1e-4f32.to_bits() });
    assert_eq!(a.val_split, num(0.20));
    assert_eq!(a.seed, 42);
    assert_eq!(a.class_weight_beta, num(0.999));
    assert_eq!(a.halo_loss_weight, Real32 { bits: 1.0f32.to_bits() });
    assert_eq!(a.device, DevicePreference::Auto);
    assert!(a.use_class_weights);
    assert!(!a.use_feature_tnet);
    assert!(!a.swa);
}

#[test]
fn train_refuses_values_out_of_range() {
    let beta = "--class-weight-beta must be in the range [0.0, 1.0). Use 0.0 for uniform \
                weights, values near 1.0 for stronger minority-class emphasis.";
    let faults: [(&str, &str, &str); 13] = [
        ("--n-classes", "1", "--n-classes must be >= 2"),
        ("--epochs", "0", "--epochs must be >= 1"),
        ("--batch-size", "0", "--batch-size must be >= 1"),
        ("--learning-rate", "0", "--learning-rate must be a positive finite number"),
        ("--val-split", "1", "--val-split must be in the range (0.0, 1.0) exclusive"),
        ("--val-split", "NaN", "--val-split must be in the range (0.0, 1.0) exclusive"),
        ("--class-weight-beta", "NaN", beta),
        ("--class-weight-beta", "1", beta),
        ("--class-weight-beta", "-0.5", beta),
        ("--keep-best-n", "0", "--keep-best-n must be >= 1"),
        ("--threads", "0", "train: --threads must be >= 1"),
        ("--grad-clip-norm", "inf", "--grad-clip-norm must be a positive finite number"),
        ("--halo-loss-weight", "-1", "--halo-loss-weight must be finite and >= 0.0"),
    ];
    for (flag, value, message) in faults {
        let args = words(&["--data-dir", "d", "--output-model", "m", flag, value]);
        let e = train_cmd::parse_args(&args, number, single).unwrap_err();
        assert_eq!(text(e), format!("Pipeline error: {message}"));
    }
    let e = train_cmd::parse_args(&words(&[]), number, single).unwrap_err();
    assert_eq!(text(e), "Pipeline error: at least one --data-dir is required");
    let e = train_cmd::parse_args(&words(&["--data-dir", "d"]), number, single).unwrap_err();
    assert_eq!(text(e), "Pipeline error: --output-model is required");
    let e = train_cmd::parse_args(&words(&["--what"]), number, single).unwrap_err();
    assert_eq!(text(e), "Pipeline error: train: unknown flag '--what'");
}

#[test]
fn metrics_stand_beside_the_first_data_directory() {
    let parse = |list: &[&str]| {
        let mut args = words(list);
        args.extend(words(&["--output-model", "m"]));
        train_cmd::parse_args(&args, number, single).unwrap()
    };
    assert_eq!(parse(&["--data-dir", "a/b"]).metrics_path(), "a/metrics/metrics.csv");
    assert_eq!(parse(&["--data-dir", "d"]).metrics_path(), "d/metrics/metrics.csv");
    assert_eq!(
        parse(&["--data-dir", "a/b", "--metrics-out", "metrics.csv"]).metrics_path(),
        "a/metrics/metrics.csv"
    );
    assert_eq!(
        parse(&["--data-dir", "a/b", "--metrics-out", "x/m.csv"]).metrics_path(),
        "x/m.csv"
    );
}

#[test]
fn flags_are_ignored_where_the_data_were_split_beforehand() {
    let parse = |list: &[&str]| {
        let mut args = words(list);
        args.extend(words(&["--output-model", "m"]));
        train_cmd::parse_args(&args, number, single).unwrap()
    };
    let a = parse(&[
        "--data-dir", "d", "--val-data-dir", "v", "--val-split", "0.3", "--val-tile-blocks",
        "b.json",
    ]);
    assert_eq!(a.ignored_flags(), vec!["--val-split", "--val-tile-blocks"]);
    let a = parse(&["--data-dir", "d", "--val-split", "0.3"]);
    assert!(a.ignored_flags().is_empty());
}

#[test]
fn validation_blocks_are_read_from_json() {
    let set = read_val_tile_blocks(&b"[3, 1, 3]".to_vec()).expect("set");
    assert_eq!(set.len(), 2);
    assert!(set.contains(&1) && set.contains(&3));
    let e = read_val_tile_blocks(&b"{}".to_vec()).unwrap_err();
    assert!(text(e).starts_with("Pipeline error: --val-tile-blocks parse: "));
    assert!(block_set(&Vec::new()).is_empty());
}

// ── values and dispatch ─────────────────────────────────────────────────────

#[test]
fn values_are_read_and_refused() {
    assert_eq!(parse_usize(Command::Train, "12", "--epochs").unwrap(), 12);
    assert!(parse_usize(Command::Train, "-1", "--epochs").is_err());
    assert!(parse_usize(Command::Train, "1.5", "--epochs").is_err());
    assert_eq!(parse_u64(Command::Train, "+7", "--seed").unwrap(), 7);
    assert!(parse_u64(Command::Train, "18446744073709551616", "--seed").is_err());
    assert_eq!(parse_positive_usize(Command::Evaluate, "3", "--threads").unwrap(), 3);
    assert_eq!(
        text(parse_positive_usize(Command::Evaluate, "0", "--threads").unwrap_err()),
        "Pipeline error: evaluate: --threads must be >= 1"
    );
    assert_eq!(
        text(parse_positive_usize(Command::Evaluate, "x", "--threads").unwrap_err()),
        "Pipeline error: evaluate: --threads must be a positive integer, got 'x'"
    );
    let args = words(&["--model"]);
    assert_eq!(
        text(require_value(Command::Evaluate, &args, 1, "--model").unwrap_err()),
        "Pipeline error: evaluate: --model requires a value"
    );
}

#[test]
fn switches_take_an_optional_value() {
    let args = words(&["--flag", "false", "rest"]);
    let mut i = 0usize;
    assert!(!parse_optional_bool(&args, &mut i, true));
    assert_eq!(i, 1);
    let mut i = 1usize;
    assert!(parse_optional_bool(&args, &mut i, true));
    assert_eq!(i, 1);
}

#[test]
fn switches_take_no_other_words() {
    for word in ["1", "0", "yes", "no", "TRUE", "False", "--other"] {
        let args = words(&["--debug-csv", word]);
        for default_val in [false, true] {
            let mut i = 0usize;
            assert_eq!(parse_optional_bool(&args, &mut i, default_val), default_val);
            assert_eq!(i, 0);
        }
    }
}

#[test]
fn positions_beyond_the_end_are_no_fault() {
    let args = words(&["--flag", "true"]);
    for at in [1usize, 2, 7] {
        let mut i = at;
        assert!(!parse_optional_bool(&args, &mut i, false));
        assert_eq!(i, at);
        assert_eq!(
            text(next_value(&args, &mut i, "--flag").unwrap_err()),
            "Pipeline error: flag '--flag' requires a value"
        );
        assert_eq!(i, at + 1);
    }
}

#[test]
fn help_is_recognised_anywhere() {
    assert!(wants_help(&words(&["--input", "x", "--help"])));
    assert!(wants_help(&words(&["-h"])));
    assert!(!wants_help(&words(&["help"])));
}

#[test]
fn command_lines_are_dispatched_by_their_second_word() {
    for run in [dispatch_classify, dispatch_train] {
        assert_eq!(run(&words(&["prog"])), Dispatch::Usage);
        assert_eq!(run(&words(&["prog", "help"])), Dispatch::Usage);
        assert_eq!(run(&words(&["prog", "-h", "x"])), Dispatch::Usage);
        assert_eq!(run(&words(&["prog", "--help"])), Dispatch::Usage);
        assert_eq!(run(&words(&["prog", "Train"])), Dispatch::Unknown);
        assert_eq!(run(&words(&["prog", ""])), Dispatch::Unknown);
    }
    assert_eq!(
        dispatch_train(&words(&["prog", "fix-label-map", "--model"])),
        Dispatch::Run(SubCommand::FixLabelMap)
    );
}

#[test]
fn each_program_knows_its_own_commands() {
    let classifying =
        [("preprocess", SubCommand::Preprocess), ("classify", SubCommand::Classify)];
    let training = [
        ("preprocess-labeled", SubCommand::PreprocessLabeled),
        ("split-dataset", SubCommand::SplitDataset),
        ("train", SubCommand::Train),
        ("evaluate", SubCommand::Evaluate),
        ("fix-label-map", SubCommand::FixLabelMap),
    ];
    for (name, command) in classifying {
        let args = words(&["prog", name]);
        assert_eq!(dispatch_classify(&args), Dispatch::Run(command));
        assert_eq!(dispatch_train(&args), Dispatch::Unknown);
    }
    for (name, command) in training {
        let args = words(&["prog", name]);
        assert_eq!(dispatch_train(&args), Dispatch::Run(command));
        assert_eq!(dispatch_classify(&args), Dispatch::Unknown);
    }
}
