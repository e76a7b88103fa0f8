use lidar_point_cloud_classifier::error::ClassifierError;
use lidar_point_cloud_classifier::ieee::{Real32, Real64};
use lidar_point_cloud_classifier::model::forward_shape::Step;
use lidar_point_cloud_classifier::model::argmax::argmax_index;
use lidar_point_cloud_classifier::model::inference::{
    asprs_code, BlockInferenceResult,
};
use lidar_point_cloud_classifier::model::pointnet::{
    canonical_decoder_dims, canonical_encoder_dims, BatchNorm1d, Layer, Linear,
    PointNetClassifier, PointNetConfig, TNet,
};
use lidar_point_cloud_classifier::model::softmax::softmax_row;
use lidar_point_cloud_classifier::model::weights::{load_model, save_model};
use lidar_point_cloud_classifier::preprocessing::N_FEATURES;

fn bits(values: &[f32]) -> Vec<u32> {
    values.iter().map(|v| v.to_bits()).collect()
}

fn row(values: &[f32]) -> Vec<Real32> {
    values.iter().map(|v| Real32 { bits: v.to_bits() }).collect()
}

fn floats(values: &[Real32]) -> Vec<f32> {
    values.iter().map(|v| f32::from_bits(v.bits)).collect()
}

fn num(x: f64) -> Real64 {
    Real64 { bits: x.to_bits() }
}

fn dense(dim_out: usize, dim_in: usize, weight: Vec<f32>, bias: Vec<f32>) -> Linear {
    Linear::new(dim_in, dim_out, bits(&weight), bits(&bias)).expect("layer")
}

fn zero_layer(dim_out: usize, dim_in: usize) -> Layer {
    Layer {
        linear: dense(dim_out, dim_in, vec![0.0; dim_out * dim_in], vec![0.0; dim_out]),
        bn: None,
    }
}

fn zero_tnet(k: usize) -> TNet {
    TNet {
        k,
        layers: vec![
            zero_layer(64, k),
            zero_layer(128, 64),
            zero_layer(1024, 128),
            zero_layer(512, 1024),
            zero_layer(256, 512),
            zero_layer(k * k, 256),
        ],
    }
}

fn make_classifier(
    n_features_in: usize,
    encoder_dims: Vec<usize>,
    decoder_dims: Vec<usize>,
    n_classes: usize,
) -> PointNetClassifier {
    let config = PointNetConfig {
        n_features_in,
        encoder_dims: encoder_dims.clone(),
        decoder_dims: decoder_dims.clone(),
        n_classes,
        use_batch_norm: false,
        use_input_tnet: false,
        use_feature_tnet: false,
    };
    let mut encoder_layers = Vec::new();
    let mut prev = n_features_in;
    for &dim in &encoder_dims {
        encoder_layers.push(zero_layer(dim, prev));
        prev = dim;
    }
    let mut decoder_layers = Vec::new();
    let mut prev_d = config.concat_dim();
    for &dim in &decoder_dims {
        decoder_layers.push(zero_layer(dim, prev_d));
        prev_d = dim;
    }
    let class_proj = zero_layer(n_classes, prev_d).linear;
    let label_map: Vec<u8> = (0u8..n_classes as u8).collect();
    PointNetClassifier {
        config,
        input_tnet: None,
        feature_tnet: None,
        encoder_layers,
        decoder_layers,
        class_proj,
        label_map,
    }
}

// ── Layers and shapes ───────────────────────────────────────────────────────

#[test]
fn test_linear_forward_dim_mismatch_is_error() {
    let linear = dense(2, 3, vec![0.0; 6], vec![0.0; 2]);
    let e = linear.width_after(5, false).unwrap_err();
    assert_eq!(e.message(), "Pipeline error: Linear::forward: input cols (5) != weight cols (3)");
    let e = linear.width_after(5, true).unwrap_err();
    assert_eq!(e.message(), "Pipeline error: Linear::forward_1d: input len (5) != weight cols (3)");
    assert_eq!(linear.width_after(3, false).unwrap(), 2);
}

#[test]
fn layers_refuse_parameters_that_do_not_match() {
    let e = Linear::new(3, 2, vec![0; 6], vec![0; 5]).unwrap_err();
    assert_eq!(e.message(), "Pipeline error: Linear: weight rows (2) != bias len (5)");
    let e = BatchNorm1d::new(vec![0; 2], vec![0; 2], vec![0; 3], vec![0; 2]).unwrap_err();
    assert_eq!(
        e.message(),
        "Pipeline error: BatchNorm1d: parameter length mismatch (gamma=2, beta=2, mean=3, var=2)"
    );
    let bn = BatchNorm1d::new(vec![0; 4], vec![0; 4], vec![0; 4], vec![0; 4]).expect("norm");
    let layer = Layer { linear: dense(2, 3, vec![0.0; 6], vec![0.0; 2]), bn: Some(bn) };
    assert_eq!(
        layer.width_after(3, false).unwrap_err().message(),
        "Pipeline error: BatchNorm1d::forward: input cols (2) != num features (4)"
    );
    assert_eq!(
        layer.width_after(3, true).unwrap_err().message(),
        "Pipeline error: BatchNorm1d::forward_1d: input len (2) != num features (4)"
    );
}

#[test]
fn test_stn64d_output_shape() {
    assert_eq!(zero_tnet(64).check_width(64).unwrap(), 64);
}

#[test]
fn transform_nets_refuse_other_widths() {
    assert_eq!(
        zero_tnet(3).check_width(4).unwrap_err().message(),
        "Pipeline error: TNet::forward: input cols (4) != k (3)"
    );
    let mut t = zero_tnet(3);
    t.layers[5] = zero_layer(8, 256);
    assert_eq!(
        t.check_width(3).unwrap_err().message(),
        "Pipeline error: TNet::forward: final FC output len (8) != k² (9)"
    );
    let mut t = zero_tnet(3);
    t.layers[3] = zero_layer(512, 1000);
    assert_eq!(
        t.check_width(3).unwrap_err().message(),
        "Pipeline error: Linear::forward_1d: input len (1024) != weight cols (1000)"
    );
}

#[test]
fn test_forward_output_shape_no_tnet() {
    let clf = make_classifier(12, vec![64, 128, 256], vec![256, 128], 8);
    assert_eq!(clf.logit_width_for(12).expect("forward failed"), 8);
}

#[test]
fn test_forward_output_shape_with_tnets() {
    let mut clf = make_classifier(12, vec![64, 128, 256], vec![256, 128], 8);
    clf.config.use_input_tnet = true;
    clf.config.use_feature_tnet = true;
    clf.input_tnet = Some(zero_tnet(3));
    clf.feature_tnet = Some(zero_tnet(64));
    assert_eq!(clf.logit_width_for(12).expect("forward with T-Nets failed"), 8);
}

#[test]
fn forward_passes_follow_the_layers() {
    let mut clf = make_classifier(12, vec![64, 128, 256], vec![256, 128], 8);
    let plain = vec![
        Step::EncodeLocal,
        Step::Encode(1),
        Step::Encode(2),
        Step::Join,
        Step::Decode(0),
        Step::Decode(1),
        Step::Project,
    ];
    assert_eq!(clf.forward(12).expect("steps"), plain);
    clf.input_tnet = Some(zero_tnet(3));
    clf.feature_tnet = Some(zero_tnet(64));
    let mut with_tnets = plain;
    with_tnets.insert(1, Step::TransformLocal);
    with_tnets.insert(0, Step::TransformInput);
    assert_eq!(clf.forward(12).expect("steps"), with_tnets);
    assert!(clf.forward(13).is_err());
}

#[test]
fn networks_refuse_matrices_of_another_width() {
    let clf = make_classifier(12, vec![64, 128], vec![32], 8);
    assert_eq!(
        clf.logit_width_for(17).unwrap_err().message(),
        "Pipeline error: PointNet::forward: input cols (17) != n_features_in (12)"
    );
    let mut empty = make_classifier(12, vec![64, 128], vec![32], 8);
    empty.encoder_layers = Vec::new();
    assert_eq!(
        empty.logit_width_for(12).unwrap_err().message(),
        "Pipeline error: PointNet: encoder_layers is empty"
    );
    let mut clf = make_classifier(12, vec![32, 128], vec![32], 8);
    clf.feature_tnet = Some(zero_tnet(64));
    assert_eq!(
        clf.logit_width_for(12).unwrap_err().message(),
        "Pipeline error: TNet::forward: input cols (32) != k (64)"
    );
}

#[test]
fn standard_widths_add_up_to_1088() {
    let clf = make_classifier(17, canonical_encoder_dims(), canonical_decoder_dims(), 8);
    assert_eq!(clf.config.concat_dim(), 1088);
    assert_eq!(clf.logit_width_for(17).unwrap(), 8);
}

// ── Labels ──────────────────────────────────────────────────────────────────

#[test]
fn test_classify_label_mapping() {
    let mut clf = make_classifier(12, vec![64, 128, 256], vec![256, 128], 3);
    clf.label_map = vec![2u8, 5u8, 6u8];
    let logits = vec![row(&[0.1, 0.9, 0.0]), row(&[0.0, 0.1, 0.8]), row(&[1.0, 0.0, 0.5])];
    assert_eq!(clf.classify(&logits), vec![5u8, 6u8, 2u8]);
}

#[test]
fn classes_without_a_code_are_unassigned() {
    assert_eq!(asprs_code(&vec![2, 5], 1), 5);
    assert_eq!(asprs_code(&vec![2, 5], 2), 1);
}

#[test]
fn argmax_takes_the_last_of_equal_scores() {
    assert_eq!(argmax_index(&row(&[0.5, 0.2, 0.5])), 2);
    assert_eq!(argmax_index(&row(&[0.1, 0.9, 0.3])), 1);
    assert_eq!(argmax_index(&row(&[-1.0, -2.0])), 0);
    assert_eq!(argmax_index(&row(&[0.0, -0.0])), 1);
    assert_eq!(argmax_index(&Vec::<Real64>::new()), 0);
}

#[test]
fn argmax_agrees_with_std_even_with_nan() {
    let rows: [&[f32]; 4] = [
        &[f32::NAN, 1.0, 0.5],
        &[1.0, f32::NAN, 0.5],
        &[3.0, f32::NAN, 4.0, 2.0],
        &[f32::NEG_INFINITY, f32::INFINITY, f32::INFINITY],
    ];
    for r in rows {
        let expected = r
            .iter()
            .enumerate()
            .max_by(|(_, a), (_, b)| a.partial_cmp(b).unwrap_or(std::cmp::Ordering::Equal))
            .map_or(0, |(i, _)| i);
        assert_eq!(argmax_index(&row(r)), expected);
    }
}

// ── Votes ───────────────────────────────────────────────────────────────────

fn power(v: Real32, max: Real32, t: Real64) -> Real64 {
    let gap = f64::from(f32::from_bits(v.bits)) - f64::from(f32::from_bits(max.bits));
    num((gap / f64::from_bits(t.bits)).exp())
}

fn narrow(e: Real64) -> Real32 {
    Real32 { bits: (f64::from_bits(e.bits) as f32).to_bits() }
}

fn sum(a: Real64, b: Real64) -> Real64 {
    num(f64::from_bits(a.bits) + f64::from_bits(b.bits))
}

fn share(e: Real32, s: Real64) -> Real32 {
    let p = f64::from(f32::from_bits(e.bits)) / f64::from_bits(s.bits);
    Real32 { bits: (p as f32).to_bits() }
}

fn show(x: Real64) -> String {
    f64::from_bits(x.bits).to_string()
}

fn votes(logits: &[&[f32]], temperature: f64) -> Result<BlockInferenceResult, ClassifierError> {
    let rows: Vec<Vec<Real32>> = logits.iter().map(|r| row(r)).collect();
    let n = logits.first().map_or(0, |r| r.len());
    BlockInferenceResult::from_logits(
        &rows,
        n,
        num(temperature),
        power,
        narrow,
        sum,
        share,
        show,
    )
}

#[test]
fn test_from_logits_softmax_reference_values() {
    let res = votes(&[&[1.0, 2.0, 3.0]], 1.0).expect("from_logits must succeed");
    let (d2, probs) = res.nearest_vote(Some((num(0.0), 0))).expect("vote must exist");
    assert_eq!(d2, num(0.0));
    let expected = [0.090_030_57_f32, 0.244_728_46, 0.665_240_94];
    for (p, e) in floats(&probs).iter().zip(expected.iter()) {
        assert!((p - e).abs() < 1e-5, "prob {p} vs expected {e}");
    }
    let sum: f32 = floats(&probs).iter().sum();
    assert!((sum - 1.0).abs() < 1e-6);
    assert_eq!(res.n_classes(), 3);
}

#[test]
fn test_softmax_temperature_sharpens_and_flattens() {
    let top = |t: f64| {
        let res = votes(&[&[1.0, 2.0, 3.0]], t).expect("ok");
        let (_, probs) = res.nearest_vote(Some((num(0.0), 0))).expect("vote");
        floats(&probs).iter().copied().fold(0.0f32, f32::max)
    };
    assert!(top(0.5) > top(1.0));
    assert!(top(4.0) < top(1.0));
}

#[test]
fn test_softmax_extreme_logits_no_overflow() {
    let res = votes(&[&[1000.0, 1001.0, 999.0]], 1.0).expect("ok");
    let (_, probs) = res.nearest_vote(Some((num(0.0), 0))).expect("vote");
    let probs = floats(&probs);
    assert!(probs.iter().all(|p| p.is_finite()));
    let sum: f32 = probs.iter().sum();
    assert!((sum - 1.0).abs() < 1e-6);
}

#[test]
fn test_softmax_argmax_matches_logit_argmax() {
    let logits: [&[f32]; 3] = [&[0.1, 0.9, 0.0], &[3.0, 1.0, 2.0], &[1.0, 1.0, 1.0]];
    let res = votes(&logits, 1.0).expect("ok");
    for (i, r) in logits.iter().enumerate() {
        let (_, probs) = res.nearest_vote(Some((num(0.0), i as u32))).expect("vote");
        assert_eq!(argmax_index(&probs), argmax_index(&row(r)));
    }
}

#[test]
fn powers_without_a_usable_sum_are_left_as_they_are() {
    let probs = |logits: &[f32]| {
        floats(&softmax_row(&row(logits), num(1.0), &power, &narrow, &sum, &share))
    };
    assert_eq!(probs(&[]), Vec::<f32>::new());
    assert_eq!(probs(&[2.0, 2.0]), vec![0.5, 0.5]);
    assert_eq!(probs(&[-7.5]), vec![1.0]);
    let halves = softmax_row(
        &row(&[2.0, 2.0]),
        num(1.0),
        &power,
        &narrow,
        &|_: Real64, _: Real64| num(f64::INFINITY),
        &share,
    );
    assert_eq!(floats(&halves), vec![1.0, 1.0]);
    let none = softmax_row(
        &row(&[2.0, 2.0]),
        num(1.0),
        &|_: Real32, _: Real32, _: Real64| num(0.0),
        &narrow,
        &sum,
        &share,
    );
    assert_eq!(floats(&none), vec![0.0, 0.0]);
}

#[test]
fn the_largest_logit_is_taken_off_each_logit() {
    let gaps = softmax_row(
        &row(&[3.0, f32::NAN, 7.0, -1.0]),
        num(2.0),
        &|v: Real32, max: Real32, _: Real64| {
            num(f64::from(f32::from_bits(v.bits) - f32::from_bits(max.bits)))
        },
        &narrow,
        &|_: Real64, _: Real64| num(0.0),
        &share,
    );
    let gaps = floats(&gaps);
    assert_eq!((gaps[0], gaps[2], gaps[3]), (-4.0, 0.0, -8.0));
    assert!(gaps[1].is_nan());
}

#[test]
fn nearest_votes_hand_out_the_row_that_was_found() {
    let res = votes(&[&[0.1, 0.9], &[0.8, 0.2], &[0.3, 0.7]], 1.0).expect("ok");
    let (d2, probs) = res.nearest_vote(Some((num(0.5), 1))).expect("vote");
    assert_eq!(d2, num(0.5));
    assert!(floats(&probs)[0] > floats(&probs)[1]);
    assert!(res.nearest_vote(None).is_none());
}

#[test]
fn test_nearest_vote_empty_tree_returns_none() {
    let res = votes(&[], 1.0).expect("ok");
    assert!(res.nearest_vote(None).is_none());
}

#[test]
fn test_from_logits_rejects_bad_temperature() {
    for t in [0.0, -1.0, f64::NAN, f64::INFINITY] {
        match votes(&[&[1.0, 2.0, 3.0]], t) {
            Err(e) => assert_eq!(
                e.message(),
                format!(
                    "Pipeline error: from_logits: temperature must be finite and > 0.0, got {t}"
                )
            ),
            Ok(_) => panic!("{t}"),
        }
    }
}

// ── Model files ─────────────────────────────────────────────────────────────

fn apply(l: &Linear, x: &[f32]) -> Vec<f32> {
    (0..l.dim_out)
        .map(|o| {
            let mut acc = f32::from_bits(l.bias[o]);
            for k in 0..l.dim_in {
                acc += f32::from_bits(l.weight[o * l.dim_in + k]) * x[k];
            }
            acc
        })
        .collect()
}

fn relu(x: Vec<f32>) -> Vec<f32> {
    x.into_iter().map(|v| v.max(0.0)).collect()
}

fn forward(m: &PointNetClassifier, input: &[Vec<f32>]) -> Vec<Vec<f32>> {
    let local: Vec<Vec<f32>> =
        input.iter().map(|x| relu(apply(&m.encoder_layers[0].linear, x))).collect();
    let mut deep = local.clone();
    for l in &m.encoder_layers[1..] {
        deep = deep.iter().map(|x| relu(apply(&l.linear, x))).collect();
    }
    let width = deep[0].len();
    let global: Vec<f32> =
        (0..width).map(|j| deep.iter().map(|x| x[j]).fold(f32::NEG_INFINITY, f32::max)).collect();
    local
        .into_iter()
        .map(|mut x| {
            x.extend_from_slice(&global);
            for l in &m.decoder_layers {
                x = relu(apply(&l.linear, &x));
            }
            apply(&m.class_proj, &x)
        })
        .collect()
}

fn ramp(n: usize, scale: f32) -> Vec<f32> {
    (0..n).map(|i| i as f32 * scale).collect()
}

fn make_small_classifier() -> PointNetClassifier {
    PointNetClassifier {
        config: PointNetConfig {
            n_features_in: 12,
            encoder_dims: vec![16, 32],
            decoder_dims: vec![24],
            n_classes: 4,
            use_batch_norm: false,
            use_input_tnet: false,
            use_feature_tnet: false,
        },
        input_tnet: None,
        feature_tnet: None,
        encoder_layers: vec![
            Layer { linear: dense(16, 12, ramp(16 * 12, 0.001), vec![0.1; 16]), bn: None },
            Layer { linear: dense(32, 16, ramp(32 * 16, 0.001), vec![-0.1; 32]), bn: None },
        ],
        decoder_layers: vec![Layer {
            linear: dense(24, 48, ramp(24 * 48, 0.001), vec![0.0; 24]),
            bn: None,
        }],
        class_proj: dense(4, 24, ramp(4 * 24, 0.01), vec![0.0; 4]),
        label_map: vec![1u8, 2u8, 5u8, 6u8],
    }
}

fn assert_round_trip(model: &PointNetClassifier, input: Vec<Vec<f32>>) {
    let before = forward(model, &input);
    let bytes = save_model(model).expect("save");
    let loaded = load_model(&bytes).expect("load");
    let after = forward(&loaded, &input);
    assert_eq!(before.len(), after.len());
    for (a, b) in before.iter().zip(after.iter()) {
        assert_eq!(bits(a), bits(b), "logit mismatch after round-trip");
    }
    assert_eq!(loaded.label_map, model.label_map);
    assert_eq!(loaded.config.encoder_dims, model.config.encoder_dims);
}

#[test]
fn test_wbmodel_round_trip() {
    let input: Vec<Vec<f32>> =
        (0..8usize).map(|i| (0..12usize).map(|j| (i * 12 + j) as f32 * 0.01).collect()).collect();
    assert_round_trip(&make_small_classifier(), input);
}

#[test]
fn test_wbmodel_round_trip_canonical_dims() {
    let wave = |n: usize, scale: f32| -> Vec<f32> {
        (0..n).map(|i| (i % 97) as f32 * scale).collect()
    };
    let config = PointNetConfig {
        n_features_in: N_FEATURES,
        encoder_dims: canonical_encoder_dims(),
        decoder_dims: canonical_decoder_dims(),
        n_classes: 4,
        use_batch_norm: false,
        use_input_tnet: false,
        use_feature_tnet: false,
    };
    let mut encoder_layers = Vec::new();
    let mut prev = N_FEATURES;
    for dim in canonical_encoder_dims() {
        encoder_layers.push(Layer {
            linear: dense(dim, prev, wave(dim * prev, 0.0001), vec![0.01; dim]),
            bn: None,
        });
        prev = dim;
    }
    let mut decoder_layers = Vec::new();
    let mut prev_d = config.concat_dim();
    for dim in canonical_decoder_dims() {
        decoder_layers.push(Layer {
            linear: dense(dim, prev_d, wave(dim * prev_d, 0.0001), vec![-0.01; dim]),
            bn: None,
        });
        prev_d = dim;
    }
    let model = PointNetClassifier {
        config,
        input_tnet: None,
        feature_tnet: None,
        encoder_layers,
        decoder_layers,
        class_proj: dense(4, prev_d, wave(4 * prev_d, 0.001), vec![0.0; 4]),
        label_map: vec![1u8, 2u8, 5u8, 6u8],
    };
    let input: Vec<Vec<f32>> = (0..16usize)
        .map(|i| (0..N_FEATURES).map(|j| ((i * N_FEATURES + j) % 97) as f32 * 0.01).collect())
        .collect();
    assert_round_trip(&model, input);
}

#[test]
fn model_files_with_transforms_and_norms_round_trip() {
    let norm = |n: usize| {
        BatchNorm1d::new(vec![1; n], vec![2; n], vec![3; n], vec![4; n]).expect("norm")
    };
    let with_norm = |l: Layer| {
        let n = l.linear.dim_out;
        Layer { linear: l.linear, bn: Some(norm(n)) }
    };
    let mut m = make_classifier(17, vec![64, 8], vec![4], 3);
    m.config.use_batch_norm = true;
    m.config.use_input_tnet = true;
    let t = zero_tnet(3);
    let n = t.layers.len();
    m.input_tnet = Some(TNet {
        k: 3,
        layers: t
            .layers
            .into_iter()
            .enumerate()
            .map(|(i, l)| if i + 1 < n { with_norm(l) } else { l })
            .collect(),
    });
    m.encoder_layers = m.encoder_layers.into_iter().map(with_norm).collect();
    m.decoder_layers = m.decoder_layers.into_iter().map(with_norm).collect();
    let bytes = save_model(&m).expect("save");
    let back = load_model(&bytes).expect("load");
    assert_eq!(save_model(&back).expect("save"), bytes);
    assert_eq!(back.input_tnet.expect("net").layers[4].bn.as_ref().expect("norm").var, vec![4; 256]);
    assert_eq!(back.encoder_layers[1].bn.as_ref().expect("norm").beta, vec![2; 8]);
}

#[test]
fn model_files_start_with_their_header() {
    let bytes = save_model(&make_small_classifier()).expect("save");
    let head: Vec<u8> = vec![
        b'W', b'B', b'M', b'L', 1, 12, 2, 1, 4, 0, 0, 0, 0, 16, 0, 32, 0, 24, 0, 1, 2, 5, 6,
    ];
    assert_eq!(bytes.len(), head.len() + 4 * (16 * 13 + 32 * 17 + 24 * 49 + 4 * 25));
    assert_eq!(bytes[..5].to_vec(), head[..5].to_vec());
    assert_eq!(bytes[13..19].to_vec(), head[13..19].to_vec());
}

#[test]
fn broken_model_files_are_refused() {
    let bytes = save_model(&make_small_classifier()).expect("save");
    assert!(load_model(&bytes[..bytes.len() - 1].to_vec()).is_err());
    assert!(load_model(&bytes[..3].to_vec()).is_err());
    let mut bad = bytes.clone();
    bad[0] = b'X';
    assert_eq!(
        load_model(&bad).unwrap_err().message(),
        "Pipeline error: wbmodel: bad magic [88, 66, 77, 76] (expected [87, 66, 77, 76])"
    );
    let mut old = bytes.clone();
    old[4] = 9;
    assert!(load_model(&old).is_err());
    let mut longer = bytes;
    longer.push(0);
    assert!(load_model(&longer).is_ok());
    let mut wide = make_small_classifier();
    wide.config.n_features_in = 256;
    assert_eq!(
        save_model(&wide).unwrap_err().message(),
        "Pipeline error: n_features_in exceeds u8"
    );
}
