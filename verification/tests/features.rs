use lidar_point_cloud_classifier::ieee::Real64;
use lidar_point_cloud_classifier::preprocessing::config::{
    HagNormalization, DEFAULT_HAG_MAX_METERS,
};
use lidar_point_cloud_classifier::preprocessing::eigen_prepass::EigenRow;
use lidar_point_cloud_classifier::preprocessing::feature_extractor::extract_features;
use lidar_point_cloud_classifier::preprocessing::lite_point::LitePoint;
use lidar_point_cloud_classifier::preprocessing::scalar_features::{
    compute_hag, normalise_scalar_features, BlockSquare, ZNormalization,
};
use lidar_point_cloud_classifier::preprocessing::N_FEATURES;

/// The place of the height in a row of scalar features.
const HAG_IDX: usize = 6;

fn num(x: f64) -> Real64 {
    Real64 { bits: x.to_bits() }
}

fn val(r: Real64) -> f64 {
    f64::from_bits(r.bits)
}

fn make_pt(x: f64, y: f64, z: f64, intensity: u16, ret: u8, nrets: u8) -> LitePoint {
    LitePoint {
        x: num(x),
        y: num(y),
        z: num(z),
        intensity,
        return_number: ret,
        number_of_returns: nrets,
        ..LitePoint::default()
    }
}

fn difference(a: Real64, b: Real64) -> Real64 {
    num(val(a) - val(b))
}

fn quotient(a: Real64, b: Real64) -> Real64 {
    num(val(a) / val(b))
}

fn ratio(a: u32, b: u32) -> Real64 {
    num(f64::from(a) / f64::from(b))
}

fn narrow(x: Real64) -> u32 {
    (val(x) as f32).to_bits()
}

fn square() -> BlockSquare {
    BlockSquare { origin_x: num(0.0), origin_y: num(0.0), size: num(50.0) }
}

fn eigen_row(values: [f32; 10]) -> EigenRow {
    let b = values.map(f32::to_bits);
    EigenRow {
        lambda1: b[0],
        lambda2: b[1],
        lambda3: b[2],
        linearity: b[3],
        planarity: b[4],
        sphericity: b[5],
        omnivariance: b[6],
        eigentropy: b[7],
        slope: b[8],
        residual: b[9],
    }
}

fn features_in(
    pts: &Vec<LitePoint>,
    hag: &[f64],
    hag_norm: HagNormalization,
    z_norm: ZNormalization,
) -> Vec<Vec<f32>> {
    let hag: Vec<Real64> = hag.iter().map(|h| num(*h)).collect();
    normalise_scalar_features(
        pts,
        &square(),
        &hag,
        hag_norm,
        z_norm,
        &difference,
        &quotient,
        &ratio,
        &narrow,
    )
    .into_iter()
    .map(|row| row.into_iter().map(f32::from_bits).collect())
    .collect()
}

fn features(pts: &Vec<LitePoint>, hag: &[f64], hag_norm: HagNormalization) -> Vec<Vec<f32>> {
    features_in(pts, hag, hag_norm, ZNormalization::BlockMinMax)
}

fn fixed_50() -> HagNormalization {
    HagNormalization::FixedMeters(num(50.0))
}

#[test]
fn test_scalar_features_range() {
    let pts = vec![
        make_pt(0.0, 0.0, 0.0, 0, 1, 1),
        make_pt(25.0, 25.0, 10.0, 32767, 1, 2),
        make_pt(50.0, 50.0, 20.0, 65535, 2, 2),
    ];
    for f in features(&pts, &[0.0, 5.0, 10.0], HagNormalization::default()) {
        assert_eq!(f.len(), 7);
        for v in f {
            assert!((0.0..=1.0).contains(&v), "feature out of [0,1]: {v}");
        }
    }
    assert_eq!(HagNormalization::default(), fixed_50());
    assert_eq!(f64::from_bits(DEFAULT_HAG_MAX_METERS), 50.0);
}

#[test]
fn test_fixed_meters_is_neighbour_invariant() {
    let short_block = vec![make_pt(0.0, 0.0, 0.0, 0, 1, 1), make_pt(1.0, 1.0, 2.0, 0, 1, 1)];
    let tall_block = vec![make_pt(0.0, 0.0, 0.0, 0, 1, 1), make_pt(1.0, 1.0, 40.0, 0, 1, 1)];
    let short_feats = features(&short_block, &[1.0, 2.0], fixed_50());
    let tall_feats = features(&tall_block, &[1.0, 40.0], fixed_50());
    assert!(
        (short_feats[0][HAG_IDX] - tall_feats[0][HAG_IDX]).abs() < 1e-6,
        "fixed-meters HAG must be neighbour-invariant: {} vs {}",
        short_feats[0][HAG_IDX],
        tall_feats[0][HAG_IDX]
    );
    assert!((short_feats[0][HAG_IDX] - (1.0 / 50.0)).abs() < 1e-6);
}

#[test]
fn test_percentile_mode_is_neighbour_dependent() {
    let n = 100usize;
    let block: Vec<LitePoint> = (0..n).map(|_| make_pt(0.0, 0.0, 0.0, 0, 1, 1)).collect();
    let mut short_hag = vec![1.0f64];
    let mut tall_hag = vec![1.0f64];
    for i in 1..n {
        let frac = i as f64 / (n - 1) as f64;
        short_hag.push(frac * 2.0);
        tall_hag.push(frac * 40.0);
    }
    let short_feats = features(&block, &short_hag, HagNormalization::BlockPercentile99);
    let tall_feats = features(&block, &tall_hag, HagNormalization::BlockPercentile99);
    assert!(
        (short_feats[0][HAG_IDX] - tall_feats[0][HAG_IDX]).abs() > 1e-3,
        "percentile HAG is expected to be neighbour-dependent: {} vs {}",
        short_feats[0][HAG_IDX],
        tall_feats[0][HAG_IDX]
    );
}

#[test]
fn test_fixed_meters_saturates_at_reference() {
    let pts = vec![make_pt(0.0, 0.0, 0.0, 0, 1, 1), make_pt(1.0, 1.0, 80.0, 0, 1, 1)];
    let feats = features(&pts, &[0.0, 80.0], fixed_50());
    assert!((feats[1][HAG_IDX] - 1.0).abs() < 1e-6, "HAG must clamp to 1.0");
    let feats = features(&pts, &[49.0, 50.0], fixed_50());
    assert_eq!((feats[0][HAG_IDX], feats[1][HAG_IDX]), (0.98, 1.0));
}

#[test]
fn percentiles_stand_where_the_machine_puts_them() {
    for n in [1usize, 2, 3, 50, 99, 100, 101, 102, 200, 201, 333, 401] {
        let block: Vec<LitePoint> = (0..n).map(|_| make_pt(0.0, 0.0, 0.0, 0, 1, 1)).collect();
        let hag: Vec<f64> = (0..n).map(|i| (n - i) as f64).collect();
        let place = ((n - 1) as f64 * 0.99) as usize;
        let feats = features(&block, &hag, HagNormalization::BlockPercentile99);
        let expected = (1.0 / (place + 1) as f64).clamp(0.0, 1.0) as f32;
        assert_eq!(feats[n - 1][HAG_IDX], expected, "{n}");
    }
    assert!(features(&Vec::new(), &[], HagNormalization::BlockPercentile99).is_empty());
}

#[test]
fn scalar_features_have_their_columns() {
    let mut p = make_pt(10.0, 20.0, 5.0, 13107, 1, 4);
    p.scan_angle = -45;
    let mut q = make_pt(-10.0, 90.0, 25.0, 65535, 3, 0);
    q.scan_angle = i16::MIN;
    let pts = vec![p, q];
    let global = ZNormalization::Global { z_min: num(0.0), z_max: num(50.0) };
    let rows = features_in(&pts, &[5.0, 100.0], fixed_50(), global);
    assert_eq!(rows[0], vec![0.2, 0.4, 0.1, 0.2, 0.25, 0.5, 0.1]);
    assert_eq!(rows[1], vec![0.0, 1.0, 0.5, 1.0, 0.0, 1.0, 1.0]);
    let rows = features(&pts, &[5.0, 100.0], fixed_50());
    assert_eq!((rows[0][2], rows[1][2]), (0.0, 1.0));
    let flat = vec![make_pt(0.0, 0.0, 7.0, 0, 1, 1)];
    assert_eq!(features(&flat, &[0.0], fixed_50())[0][2], 0.0);
    let none = HagNormalization::FixedMeters(num(0.0));
    assert_eq!(features(&flat, &[1e-10], none)[0][HAG_IDX], (1e-10f64 / 1e-9) as f32);
}

#[test]
fn heights_are_above_the_ground_or_the_lowest_point() {
    let pts = vec![
        make_pt(0.0, 0.0, 12.0, 0, 1, 1),
        make_pt(5.0, 0.0, 10.0, 0, 1, 1),
        make_pt(9.0, 1.0, 30.0, 0, 1, 1),
    ];
    let floats = |v: Vec<Real64>| v.into_iter().map(val).collect::<Vec<f64>>();
    let unknown = |_: Real64, _: Real64| -> Option<Real64> { None };
    assert_eq!(floats(compute_hag(&pts, &unknown, &difference)), vec![2.0, 0.0, 20.0]);
    let known = |x: Real64, y: Real64| {
        if val(x) > 4.0 {
            Some(num(1.0 + val(y)))
        } else {
            None
        }
    };
    assert_eq!(floats(compute_hag(&pts, &known, &difference)), vec![2.0, 9.0, 28.0]);
}

fn extract(pts: &Vec<LitePoint>, eigen: &Vec<EigenRow>) -> Vec<Vec<u32>> {
    extract_features(
        pts,
        eigen,
        &square(),
        HagNormalization::default(),
        ZNormalization::Global { z_min: num(0.0), z_max: num(10.0) },
        |_: Real64, _: Real64| None,
        difference,
        quotient,
        ratio,
        narrow,
    )
}

#[test]
fn test_extract_features_output_shape_and_range() {
    let pts: Vec<LitePoint> = (0..20)
        .map(|i| {
            let mut p = make_pt(
                f64::from(i) * 2.0,
                f64::from(i) * 2.0,
                f64::from(i) * 0.5,
                32767,
                1,
                1,
            );
            p.intensity = (i * 3000) as u16;
            p.return_number = 1;
            p.number_of_returns = 2;
            p
        })
        .collect();
    let eigen: Vec<EigenRow> = (0..pts.len())
        .map(|i| {
            let mut r = [0.0f32; 10];
            r[3] = 0.5;
            r[4] = 0.3;
            r[5] = 0.2;
            r[6] = (i as f32) * 0.01;
            eigen_row(r)
        })
        .collect();
    let feats = extract(&pts, &eigen);
    assert_eq!(feats.len(), pts.len());
    for row in &feats {
        assert_eq!(row.len(), N_FEATURES, "row should have N_FEATURES entries");
        let row: Vec<f32> = row.iter().map(|b| f32::from_bits(*b)).collect();
        for &v in &row[0..7] {
            assert!((0.0..=1.0).contains(&v), "scalar feature out of range: {v}");
        }
        assert!(row[13] >= 0.0, "omnivariance must be non-negative: {}", row[13]);
    }
}

#[test]
fn test_extract_features_eigen_passthrough() {
    let pts: Vec<LitePoint> =
        (0..5).map(|i| make_pt(f64::from(i), 0.0, 0.0, 32767, 1, 1)).collect();
    let eigen: Vec<EigenRow> = (0..pts.len())
        .map(|i| {
            let mut r = [0.0f32; 10];
            for (j, v) in r.iter_mut().enumerate() {
                *v = (i * 10 + j) as f32;
            }
            eigen_row(r)
        })
        .collect();
    let feats = extract(&pts, &eigen);
    assert_eq!(feats.len(), 5);
    for (row, eig) in feats.iter().zip(eigen.iter()) {
        assert_eq!(row[7..17], eig.to_values());
    }
    assert_eq!(extract(&pts, &eigen[..3].to_vec()).len(), 3);
}
