use lidar_point_cloud_classifier::cli::evaluation::{
    argmax_row, derive_size_and_radius, label_byte, origin_bounds, reconcile_n_classes,
    require_blocks, score_points, select_band, write_per_class_metrics_csv, ClassRow,
    FusedScores,
};
use lidar_point_cloud_classifier::cli::fix_label_map_cmd::{
    plan_fix, FixLabelMapConfig, LabelMapFix,
};
use lidar_point_cloud_classifier::error::ClassifierError;
use lidar_point_cloud_classifier::ieee::{Real32, Real64};
use lidar_point_cloud_classifier::model::confusion::ConfusionMatrix;
use lidar_point_cloud_classifier::preprocessing::dataset_split::derive_n_classes;
use lidar_point_cloud_classifier::preprocessing::label_inverse::inverse_label_map;
use lidar_point_cloud_classifier::text_map::TextMap;

fn num(x: f64) -> Real64 {
    Real64 { bits: x.to_bits() }
}

fn row(values: &[f32]) -> Vec<Real32> {
    values.iter().map(|v| Real32 { bits: v.to_bits() }).collect()
}

fn label_map(entries: &[(&str, u8)]) -> TextMap<u8> {
    let mut m = TextMap::new();
    for (k, v) in entries {
        m.insert(k, *v);
    }
    m
}

/// Codes 2 and 3 are classes 0 and 1.
fn data_map() -> TextMap<u8> {
    label_map(&[("2", 0), ("3", 1)])
}

fn reconcile(
    model_n: usize,
    model_map: Vec<u8>,
    requested: Option<usize>,
) -> Result<usize, ClassifierError> {
    let map = data_map();
    let n = derive_n_classes(&map);
    reconcile_n_classes(model_n, &model_map, n, inverse_label_map(&map, n), requested)
}

#[test]
fn test_argmax_row_picks_max_and_breaks_ties_high() {
    assert_eq!(argmax_row(&row(&[0.1, 0.9, 0.3])), 1u8);
    assert_eq!(argmax_row(&row(&[0.5, 0.2, 0.5])), 2u8);
    assert_eq!(label_byte(255), 255);
    assert_eq!(label_byte(256), 255);
}

#[test]
fn test_run_evaluation_zero_model_all_highest_class() {
    let zero = row(&[0.0, 0.0]);
    let preds: Vec<u8> = (0..6).map(|_| argmax_row(&zero)).collect();
    let gts = vec![0u8, 0, 0, 1, 1, 1];
    let mut m = ConfusionMatrix::new(2);
    m.accumulate(&preds, &gts);
    assert_eq!(m.get(0, 0), 0);
    assert_eq!(m.get(0, 1), 3);
    assert_eq!(m.get(1, 0), 0);
    assert_eq!(m.get(1, 1), 3);
    let c0 = m.class_counts(0);
    assert_eq!((c0.tp, c0.fp, c0.false_negatives, c0.tn), (0, 0, 3, 3));
    let c1 = m.class_counts(1);
    assert_eq!((c1.tp, c1.fp, c1.false_negatives, c1.tn), (3, 3, 0, 0));
    let correct = m.get(0, 0) + m.get(1, 1);
    assert!((correct as f64 / 6.0 - 0.5).abs() < 1e-9);
}

#[test]
fn classes_beyond_the_matrix_are_left_out() {
    let mut m = ConfusionMatrix::new(2);
    m.accumulate(&vec![0, 5, 1], &vec![0, 0, 7]);
    assert_eq!((m.get(0, 0), m.get(0, 1), m.get(1, 0), m.get(1, 1)), (1, 0, 0, 0));
    m.accumulate(&vec![0], &vec![1]);
    assert_eq!(m.get(1, 0), 1);
}

#[test]
fn test_reconcile_rejects_model_data_class_mismatch() {
    let result = reconcile(3, vec![2, 3, 4], None);
    assert!(result.is_err());
    assert!(result.unwrap_err().message().contains("classes"));
}

#[test]
fn test_reconcile_rejects_bad_n_classes_override() {
    let result = reconcile(2, vec![2, 3], Some(5));
    assert!(result.is_err());
    assert!(result.unwrap_err().message().contains("--n-classes"));
}

#[test]
fn test_reconcile_ok_when_all_agree() {
    assert_eq!(reconcile(2, vec![2, 3], Some(2)).unwrap(), 2);
    assert_eq!(reconcile(2, vec![2, 3], None).unwrap(), 2);
}

#[test]
fn test_reconcile_rejects_label_map_content_mismatch() {
    let result = reconcile(2, vec![3, 2], None);
    assert!(result.is_err());
    assert!(result.unwrap_err().message().contains("label map mismatch"));
}

#[test]
fn reconcile_messages_name_the_codes() {
    assert_eq!(
        reconcile(2, vec![3, 2], None).unwrap_err().message(),
        "Pipeline error: evaluate: label map mismatch at model class index 0 — the model maps this index to ASPRS code Some(3), but the evaluation data's label map maps it to ASPRS code 2. The model and the evaluation data must have been preprocessed with the exact same --label-map, not merely the same class count."
    );
    assert!(reconcile(2, vec![2], None)
        .unwrap_err()
        .message()
        .contains("at model class index 1 — the model maps this index to ASPRS code None"));
    assert_eq!(
        reconcile(3, vec![], None).unwrap_err().message(),
        "Pipeline error: evaluate: model has 3 classes but the data directory declares 2 classes. The model and the evaluation data must use the same label map / class count."
    );
    assert_eq!(
        reconcile(2, vec![2, 3], Some(5)).unwrap_err().message(),
        "Pipeline error: evaluate: --n-classes=5 disagrees with the model/data class count (2). Omit --n-classes to use the derived value."
    );
}

#[test]
fn test_write_per_class_metrics_csv_shape() {
    let mut m = ConfusionMatrix::new(2);
    m.accumulate(&vec![1; 6], &vec![0, 0, 0, 1, 1, 1]);
    let rows: Vec<ClassRow> = (0..2usize)
        .map(|c| ClassRow {
            class_idx: c,
            counts: m.class_counts(c),
            precision: "0.500000".to_string(),
            recall: "1.000000".to_string(),
            f1: "0.666667".to_string(),
            iou: "0.500000".to_string(),
        })
        .collect();
    let text = write_per_class_metrics_csv(&rows, &vec![2, 3]);
    let lines: Vec<&str> = text.lines().collect();
    assert_eq!(lines.len(), 3);
    assert!(lines[0].starts_with("class_idx,asprs_code,tp,fp,tn,fn"));
    assert!(lines[1].starts_with("0,2,"));
    assert!(lines[2].starts_with("1,3,"));
    assert_eq!(lines[1], "0,2,0,0,3,3,0.500000,1.000000,0.666667,0.500000");
    assert_eq!(lines[2], "1,3,3,3,0,0,0.500000,1.000000,0.666667,0.500000");
}

fn show(x: Real64) -> String {
    f64::from_bits(x.bits).to_string()
}

#[test]
fn test_fused_eval_two_blocks_band_split() {
    // Block 0 has three points near the seam, block 1 three deep inside.
    let near = score_points(&vec![Some(1); 3], &vec![0; 3], &vec![true; 3]);
    let inner = score_points(&vec![Some(1); 3], &vec![1; 3], &vec![false; 3]);
    let mut scores = FusedScores::new(2);
    scores.add_block(&near);
    scores.add_block(&inner);

    let (size, radius) = derive_size_and_radius(
        &vec![num(50.0), num(50.0)],
        None,
        num(50.0 / 4.0),
        |a: Real64, b: Real64| (f64::from_bits(a.bits) - f64::from_bits(b.bits)).abs() > 1e-9,
        show,
    )
    .expect("grid");
    assert_eq!(size, num(50.0));
    assert_eq!(radius, num(12.5));

    assert_eq!(scores.stats.n_blocks, 2);
    assert_eq!(scores.stats.n_points, 6);
    assert_eq!(scores.stats.band_points, 3);
    assert_eq!(scores.stats.interior_points, 3);
    assert_eq!(scores.full.get(0, 1), 3);
    assert_eq!(scores.full.get(1, 1), 3);
    assert_eq!(scores.band.get(0, 0) + scores.band.get(1, 1), 0);
    assert_eq!(scores.band.get(0, 1), 3);
    assert_eq!(scores.interior.get(1, 1), 3);
}

#[test]
fn points_without_votes_are_not_scored() {
    let s = score_points(
        &vec![Some(1), None, Some(300)],
        &vec![4, 5, 6],
        &vec![true, false, false],
    );
    assert_eq!(s.preds, vec![1, 255]);
    assert_eq!(s.gts, vec![4, 6]);
    assert_eq!(s.bands, vec![true, false]);
    assert_eq!(select_band(&s, true).gts, vec![4]);
    assert_eq!(select_band(&s, false).gts, vec![6]);
}

#[test]
fn directories_need_one_block_size_and_a_fitting_radius() {
    let differ = |a: Real64, b: Real64| {
        (f64::from_bits(a.bits) - f64::from_bits(b.bits)).abs() > 1e-9
    };
    let derive = |sizes: &[f64], explicit: Option<f64>| {
        let sizes: Vec<Real64> = sizes.iter().map(|s| num(*s)).collect();
        derive_size_and_radius(&sizes, explicit.map(num), num(12.5), differ, show)
    };
    let message = |sizes: &[f64], explicit: Option<f64>| match derive(sizes, explicit) {
        Err(e) => e.message(),
        Ok(_) => panic!("the sizes must be refused"),
    };
    assert_eq!(
        message(&[50.0, 50.0, 25.5], None),
        "Pipeline error: evaluate: mixed block sizes within one data dir (50 vs 25.5); \
         --fused-eval requires a uniform grid"
    );
    assert_eq!(
        message(&[], None),
        "Pipeline error: evaluate: no blocks to derive block_size from"
    );
    assert_eq!(
        message(&[0.0], None),
        "Pipeline error: evaluate: non-positive block_size (0) in data dir"
    );
    for bad in [-1.0, 25.5, f64::NAN, f64::INFINITY] {
        assert_eq!(
            message(&[50.0], Some(bad)),
            format!(
                "Pipeline error: evaluate: --fusion-radius must be finite and within [0, \
                 block_size/2 (=25)], got {bad}"
            )
        );
    }
    assert_eq!(derive(&[50.0], Some(25.0)).unwrap(), (num(50.0), num(25.0)));
    assert_eq!(derive(&[50.0], None).unwrap(), (num(50.0), num(12.5)));
}

#[test]
fn origins_are_bounded_from_both_sides() {
    let values: Vec<Real64> = [3.5, -2.0, f64::NAN, 7.25].iter().map(|v| num(*v)).collect();
    assert_eq!(origin_bounds(&values), (num(-2.0), num(7.25)));
    assert_eq!(origin_bounds(&Vec::new()), (num(f64::INFINITY), num(f64::NEG_INFINITY)));
}

#[test]
fn empty_data_directories_are_refused() {
    assert!(require_blocks(1, true).is_ok());
    assert_eq!(
        require_blocks(0, true).unwrap_err().message(),
        "Pipeline error: evaluate: no blocks found in the supplied --data-dir"
    );
    assert_eq!(
        require_blocks(0, false).unwrap_err().message(),
        "Pipeline error: evaluate: no blocks found in the supplied --data-dir(s)"
    );
}

// ── Label maps ──────────────────────────────────────────────────────────────

#[test]
fn label_maps_are_read_backwards() {
    let m = label_map(&[("6", 1), ("2", 0), ("5", 1), ("x", 1)]);
    assert_eq!(derive_n_classes(&m), 2);
    assert_eq!(inverse_label_map(&m, 2).unwrap(), vec![2, 5]);
    assert_eq!(
        inverse_label_map(&m, 3).unwrap_err().message(),
        "Pipeline error: label map has no ASPRS code for model class index 2"
    );
    assert_eq!(derive_n_classes(&TextMap::new()), 8);
}

fn fix(
    output: Option<&str>,
    model_n: usize,
    current: Vec<u8>,
) -> Result<LabelMapFix, ClassifierError> {
    let map = data_map();
    let n = derive_n_classes(&map);
    let cfg = FixLabelMapConfig {
        model: "model.wbmodel".to_string(),
        data_dirs: vec!["d".to_string()],
        output: output.map(|s| s.to_string()),
    };
    plan_fix(cfg, model_n, n, &current, inverse_label_map(&map, n))
}

#[test]
fn test_run_patches_identity_label_map_in_place() {
    match fix(None, 2, vec![0, 1]).expect("fix-label-map run") {
        LabelMapFix::Write { label_map, path } => {
            assert_eq!(label_map, vec![2, 3]);
            assert_eq!(path, "model.wbmodel");
        }
        LabelMapFix::Nothing => panic!("the map must be patched"),
    }
}

#[test]
fn test_run_is_a_noop_when_already_correct() {
    assert!(matches!(fix(None, 2, vec![2, 3]), Ok(LabelMapFix::Nothing)));
}

#[test]
fn test_run_rejects_class_count_mismatch() {
    let result = fix(None, 3, vec![0, 1, 2]);
    assert!(result.is_err());
    assert!(result.unwrap_err().message().contains("classes"));
}

#[test]
fn test_run_writes_to_output_path_when_given() {
    for current in [vec![0u8, 1], vec![2u8, 3]] {
        match fix(Some("patched.wbmodel"), 2, current).expect("fix-label-map run") {
            LabelMapFix::Write { label_map, path } => {
                assert_eq!(label_map, vec![2, 3]);
                assert_eq!(path, "patched.wbmodel");
            }
            LabelMapFix::Nothing => panic!("the output was asked for"),
        }
    }
}
