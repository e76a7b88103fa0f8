use std::collections::HashSet;

use lidar_point_cloud_classifier::ieee::Real64;
use lidar_point_cloud_classifier::preprocessing::block_assembly::{
    block_file_name, block_result, debug_csv, look_up_row, sample_rows,
};
use lidar_point_cloud_classifier::preprocessing::block_partitioner::Block;
use lidar_point_cloud_classifier::preprocessing::eigen_prepass::EigenRow;
use lidar_point_cloud_classifier::preprocessing::lite_point::LitePoint;
use lidar_point_cloud_classifier::preprocessing::normalizer::{
    jitter_offset, pick, resample_block, sample_halo,
};
use lidar_point_cloud_classifier::preprocessing::outlier_filter::{apply, neighbour_heights};
use lidar_point_cloud_classifier::preprocessing::real_order::{
    middle_pair, nth_smallest, sort_reals,
};
use lidar_point_cloud_classifier::preprocessing::spatial_index::adaptive_radius_search;
use rand::rngs::SmallRng;
use rand::{Rng, SeedableRng};

fn num(x: f64) -> Real64 {
    Real64 { bits: x.to_bits() }
}

fn val(r: Real64) -> f64 {
    f64::from_bits(r.bits)
}

fn make_pt(x: f64, y: f64, z: f64, intensity: u16, ret: u8, nrets: u8) -> LitePoint {
    LitePoint {
        x: num(x),
        y: num(y),
        z: num(z),
        intensity,
        return_number: ret,
        number_of_returns: nrets,
        ..LitePoint::default()
    }
}

/// A normally distributed number with this standard deviation.
fn gauss(mut rng: SmallRng, sigma: Real64) -> (SmallRng, Real64) {
    let u1: f64 = 1.0 - rng.random::<f64>();
    let u2: f64 = rng.random::<f64>();
    let z0 = (-2.0 * u1.ln()).sqrt() * (2.0 * std::f64::consts::PI * u2).cos();
    (rng, num(z0 * val(sigma)))
}

fn shift(x: Real64, offset: Real64) -> Real64 {
    num(val(x) + val(offset))
}

fn resample(
    pts: &Vec<LitePoint>,
    target: usize,
    seed: u64,
    sigma: f64,
) -> (Vec<LitePoint>, Vec<usize>, bool) {
    resample_block(pts, target, seed, num(sigma), gauss, shift)
}

#[test]
fn test_resample_subsamples_correctly() {
    let pts: Vec<LitePoint> =
        (0..100).map(|i| make_pt(f64::from(i), 0.0, 0.0, 0, 1, 1)).collect();
    let (sampled, _indices, over) = resample(&pts, 50, 42, 0.0);
    assert_eq!(sampled.len(), 50);
    assert!(!over);
}

#[test]
fn test_resample_oversamples_to_target() {
    let pts: Vec<LitePoint> = (0..10).map(|i| make_pt(f64::from(i), 0.0, 0.0, 0, 1, 1)).collect();
    let (sampled, _indices, over) = resample(&pts, 50, 42, 0.0);
    assert_eq!(sampled.len(), 50);
    assert!(over);
}

#[test]
fn test_resample_exact_count_no_oversample() {
    let pts: Vec<LitePoint> =
        (0..1024).map(|i| make_pt(f64::from(i), 0.0, 0.0, 0, 1, 1)).collect();
    let (sampled, _indices, over) = resample(&pts, 1024, 0, 0.0);
    assert_eq!(sampled.len(), 1024);
    assert!(!over);
}

#[test]
fn test_resample_is_reproducible() {
    let pts: Vec<LitePoint> =
        (0..200).map(|i| make_pt(f64::from(i), 0.0, 0.0, 0, 1, 1)).collect();
    let (s1, _, _) = resample(&pts, 100, 99, 0.0);
    let (s2, _, _) = resample(&pts, 100, 99, 0.0);
    let xs1: Vec<i64> = s1.iter().map(|p| (val(p.x) * 1e6) as i64).collect();
    let xs2: Vec<i64> = s2.iter().map(|p| (val(p.x) * 1e6) as i64).collect();
    assert_eq!(xs1, xs2, "resample must be reproducible given the same seed");
}

#[test]
fn test_jitter_zero_is_bit_identical_to_no_jitter() {
    let pts: Vec<LitePoint> = (0..10)
        .map(|i| make_pt(f64::from(i), f64::from(i) * 2.0, f64::from(i) * 0.5, 100, 1, 1))
        .collect();
    let (s_no_jitter, idx_no_jitter, over1) = resample(&pts, 50, 7, 0.0);
    let (s_zero_sigma, idx_zero_sigma, over2) = resample(&pts, 50, 7, 0.0);
    assert_eq!(over1, over2);
    assert_eq!(idx_no_jitter, idx_zero_sigma);
    for (a, b) in s_no_jitter.iter().zip(s_zero_sigma.iter()) {
        assert!((val(a.x) - val(b.x)).abs() < 1e-15);
        assert!((val(a.y) - val(b.y)).abs() < 1e-15);
        assert!((val(a.z) - val(b.z)).abs() < 1e-15);
    }
}

#[test]
fn test_jitter_perturbs_padding_points_only() {
    let pts: Vec<LitePoint> = (0..5)
        .map(|i| make_pt(f64::from(i) * 10.0, f64::from(i) * 10.0, 0.0, 100, 1, 1))
        .collect();
    let (sampled, indices, over) = resample(&pts, 20, 123, 1.0);
    assert!(over);
    assert_eq!(sampled.len(), 20);
    for i in 0..5 {
        assert!((val(sampled[i].x) - val(pts[i].x)).abs() < 1e-12);
        assert!((val(sampled[i].y) - val(pts[i].y)).abs() < 1e-12);
        assert!((val(sampled[i].z) - val(pts[i].z)).abs() < 1e-12);
    }
    let mut any_diff = false;
    for i in 5..20 {
        let src = pts[indices[i]];
        if (val(sampled[i].x) - val(src.x)).abs() > 1e-9
            || (val(sampled[i].y) - val(src.y)).abs() > 1e-9
            || (val(sampled[i].z) - val(src.z)).abs() > 1e-9
        {
            any_diff = true;
        }
        assert!((val(sampled[i].x) - val(src.x)).abs() <= 3.0 + 1e-12);
    }
    assert!(any_diff, "expected at least one padded point to be perturbed by jitter");
}

#[test]
fn test_jitter_is_reproducible() {
    let pts: Vec<LitePoint> = (0..5).map(|i| make_pt(f64::from(i), 0.0, 0.0, 0, 1, 1)).collect();
    let (s1, _, _) = resample(&pts, 30, 55, 0.25);
    let (s2, _, _) = resample(&pts, 30, 55, 0.25);
    for (a, b) in s1.iter().zip(s2.iter()) {
        assert!((val(a.x) - val(b.x)).abs() < 1e-15);
        assert!((val(a.y) - val(b.y)).abs() < 1e-15);
        assert!((val(a.z) - val(b.z)).abs() < 1e-15);
    }
}

#[test]
fn test_jitter_offset_clipped_to_three_sigma() {
    let mut rng = SmallRng::seed_from_u64(1);
    let sigma = 0.5;
    for _ in 0..10_000 {
        let (after, v) = jitter_offset(rng, num(sigma), &gauss);
        rng = after;
        let v = val(v);
        assert!(v.abs() <= 3.0 * sigma + 1e-12, "jitter offset {v} exceeded 3 x {sigma}");
    }
}

#[test]
fn test_jitter_offset_zero_for_nonpositive_sigma() {
    let rng = SmallRng::seed_from_u64(2);
    let (rng, none) = jitter_offset(rng, num(0.0), &gauss);
    assert_eq!(val(none), 0.0);
    let (_, none) = jitter_offset(rng, num(-1.0), &gauss);
    assert_eq!(val(none), 0.0);
}

#[test]
fn offsets_are_clipped_on_either_side() {
    let offset = |raw: f64| {
        let rng = SmallRng::seed_from_u64(3);
        let (_, v) = jitter_offset(rng, num(0.1), &|g: SmallRng, _: Real64| (g, num(raw)));
        val(v)
    };
    assert_eq!(offset(5.0), 3.0 * 0.1);
    assert_eq!(offset(-5.0), -3.0 * 0.1);
    assert_eq!(offset(0.25), 0.25);
    assert_eq!(offset(-0.25), -0.25);
}

#[test]
fn each_coordinate_is_moved_by_its_own_offset() {
    let pts = vec![make_pt(10.0, 20.0, 30.0, 7, 1, 2)];
    let (sampled, indices, over) = resample(&pts, 4, 9, 0.5);
    assert!(over);
    assert_eq!(indices, vec![0, 0, 0, 0]);
    let mut rng = SmallRng::seed_from_u64(9);
    for p in sampled.iter().skip(1) {
        let _ = rng.random_range(0..1usize);
        let mut places = Vec::new();
        for start in [10.0, 20.0, 30.0] {
            let (after, v) = jitter_offset(rng, num(0.5), &gauss);
            rng = after;
            places.push(start + val(v));
        }
        assert_eq!(vec![val(p.x), val(p.y), val(p.z)], places);
        assert_eq!((p.intensity, p.return_number, p.number_of_returns), (7, 1, 2));
    }
}

#[test]
fn one_block_gives_the_same_rows_again() {
    let b = block(6);
    let border: Vec<(u64, LitePoint)> =
        (6..30).map(|i| (i, make_pt(100.0 + i as f64, 0.0, 0.0, 0, 1, 1))).collect();
    let table: Vec<EigenRow> = (0..30).map(|i| row(i as f32)).collect();
    let a = sample_rows(&b, &border, &table, 20, 5, num(0.5), gauss, shift);
    let c = sample_rows(&b, &border, &table, 20, 5, num(0.5), gauss, shift);
    assert!(a.oversampled);
    assert_eq!(a.points, c.points);
    assert_eq!(a.sampled_indices, c.sampled_indices);
    assert_eq!(a.halo, c.halo);
    let mut other = block(6);
    other.id = 4;
    let d = sample_rows(&other, &border, &table, 20, 5, num(0.5), gauss, shift);
    assert_ne!(a.points, d.points);
}

#[test]
fn draws_are_spread_and_distinct() {
    let pts: Vec<LitePoint> =
        (0..100).map(|i| make_pt(f64::from(i), 0.0, 0.0, 0, 1, 1)).collect();
    let (sampled, indices, _) = resample(&pts, 60, 5, 0.0);
    let distinct: HashSet<usize> = indices.iter().copied().collect();
    assert_eq!(distinct.len(), 60);
    assert_ne!(indices, (0..60).collect::<Vec<usize>>());
    for (p, &i) in sampled.iter().zip(indices.iter()) {
        assert_eq!(p.x, pts[i].x);
    }
    let (_, other, _) = resample(&pts, 60, 6, 0.0);
    assert_ne!(indices, other);
    let (none, at, over) = resample(&Vec::new(), 60, 6, 0.0);
    assert!(none.is_empty() && at.is_empty() && !over);
}

#[test]
fn picks_follow_their_draws() {
    assert_eq!(pick(5, &vec![0, 1, 2]), vec![0, 1, 2]);
    assert_eq!(pick(5, &vec![4, 4, 2]), vec![4, 0, 2]);
    assert_eq!(pick(4, &vec![3, 2, 2, 3]), vec![3, 2, 1, 0]);
}

#[test]
fn small_borders_are_taken_whole() {
    let border: Vec<(u64, LitePoint)> =
        (0..4).map(|i| (i, make_pt(i as f64, 0.0, 0.0, 0, 1, 1))).collect();
    assert_eq!(sample_halo(&border, 4, 1), border);
    let some = sample_halo(&border, 2, 1);
    assert_eq!(some.len(), 2);
    assert_ne!(some[0].0, some[1].0);
}

// ── Assembling blocks ───────────────────────────────────────────────────────

fn row(slope: f32) -> EigenRow {
    EigenRow { slope: slope.to_bits(), ..EigenRow::zero() }
}

fn block(n: u64) -> Block {
    Block {
        col: 0,
        row: 0,
        id: 3,
        points: (0..n).map(|i| make_pt(i as f64, 0.0, 0.0, 0, 1, 1)).collect(),
        point_indices: (0..n).collect(),
    }
}

#[test]
fn blocks_fill_up_with_halo_rows() {
    let b = block(6);
    let border: Vec<(u64, LitePoint)> =
        (6..9).map(|i| (i, make_pt(100.0 + i as f64, 0.0, 0.0, 0, 1, 1))).collect();
    let table: Vec<EigenRow> = (0..9).map(|i| row(i as f32)).collect();
    let rows = sample_rows(&b, &border, &table, 8, 2, num(0.0), gauss, shift);
    assert_eq!(rows.points.len(), 8);
    assert_eq!(rows.halo.len(), 2);
    assert_eq!(rows.sampled_indices.len(), 6);
    assert!(!rows.oversampled);
    for (p, e) in rows.points.iter().zip(rows.eigen_rows.iter()).take(6) {
        assert_eq!(val(p.x) as f32, f32::from_bits(e.slope));
    }
    for ((i, _), e) in rows.halo.iter().zip(rows.eigen_rows.iter().skip(6)) {
        assert_eq!(*i as f32, f32::from_bits(e.slope));
    }
    let bare = sample_rows(&b, &Vec::new(), &table, 8, 2, num(0.0), gauss, shift);
    assert_eq!(bare.points.len(), 8);
    assert!(bare.oversampled && bare.halo.is_empty());

    let result = block_result(3, num(1.0), num(2.0), 6, rows, true);
    assert_eq!(result.meta.file, "block_00003.feat");
    assert_eq!(result.meta.sampled_point_count, 8);
    assert_eq!(result.meta.n_halo, 2);
    assert_eq!(result.sampled_indices.len(), 6);
    assert_eq!(result.halo_classifications.len(), 2);
    let dropped = block_result(3, num(1.0), num(2.0), 6, bare, false);
    assert!(dropped.sampled_indices.is_empty());
}

#[test]
fn missing_rows_are_zero() {
    let table = vec![row(4.0)];
    assert_eq!(look_up_row(&table, 0), row(4.0));
    assert_eq!(look_up_row(&table, 1), EigenRow::zero());
    assert_eq!(look_up_row(&table, u64::MAX), EigenRow::zero());
}

#[test]
fn file_names_have_five_digits() {
    assert_eq!(block_file_name(7, ".lbl"), "block_00007.lbl");
    assert_eq!(block_file_name(123456, ".csv"), "block_123456.csv");
}

#[test]
fn tables_for_debugging_have_a_heading() {
    let text = debug_csv(&vec![vec![1.5f32.to_bits(), 2.0f32.to_bits()]], |v: u32| {
        format!("{:.6}", f32::from_bits(v))
    });
    let lines: Vec<&str> = text.lines().collect();
    assert_eq!(lines.len(), 2);
    assert_eq!(lines[1], "1.500000,2.000000");
}

// ── Neighbourhoods ──────────────────────────────────────────────────────────

fn search(coords: Vec<f64>) -> impl Fn(Real64) -> Vec<usize> {
    move |r: Real64| {
        (0..coords.len()).filter(|&i| coords[i].abs() <= val(r)).collect()
    }
}

fn radii() -> Vec<Real64> {
    vec![num(1.0), num(1.5), num(2.25), num(3.375), num(4.0)]
}

#[test]
fn test_adaptive_radius_expands_when_needed() {
    let far: Vec<f64> = (0..10).map(|i| 1.1 + f64::from(i) * 0.01).collect();
    let result = adaptive_radius_search(&radii(), 5, search(far));
    assert!(result.len() >= 5);
    assert_eq!(result.len(), 10);
}

#[test]
fn test_adaptive_radius_caps_at_4x() {
    let result = adaptive_radius_search(&radii(), 5, search(vec![100.0]));
    assert_eq!(result.len(), 0);
}

#[test]
fn the_first_radius_with_enough_neighbours_counts() {
    let coords = vec![0.5, 0.9, 1.4, 2.0, 3.0];
    assert_eq!(adaptive_radius_search(&radii(), 2, search(coords.clone())), vec![0, 1]);
    assert_eq!(adaptive_radius_search(&radii(), 3, search(coords.clone())), vec![0, 1, 2]);
    assert_eq!(adaptive_radius_search(&radii(), 9, search(coords)), vec![0, 1, 2, 3, 4]);
}

#[test]
fn outliers_are_dropped() {
    let residuals = [0.5, -60.0, 49.9, 50.0];
    let kept = apply(4, num(50.0), |i: usize| Some(num(f64::abs(residuals[i]))));
    assert_eq!(kept, vec![0, 2]);
    let lonely = [None, Some(num(0.0)), None, Some(num(0.5))];
    assert_eq!(apply(4, num(0.0), |i: usize| lonely[i]), vec![0, 2]);
    assert_eq!(apply(4, num(0.25), |i: usize| lonely[i]), vec![0, 1, 2]);
    let heights = vec![num(1.0), num(2.0), num(3.0)];
    assert_eq!(neighbour_heights(&heights, &vec![2, 0, 1], 0), vec![num(3.0), num(2.0)]);
}

#[test]
fn reals_sort_by_value() {
    let v: Vec<Real64> = [3.0, -1.0, 2.5, -7.0].iter().map(|x| num(*x)).collect();
    let sorted: Vec<f64> = sort_reals(&v).into_iter().map(val).collect();
    assert_eq!(sorted, vec![-7.0, -1.0, 2.5, 3.0]);
    assert_eq!(val(nth_smallest(&v, 2)), 2.5);
    let (a, b) = middle_pair(&v);
    assert_eq!((val(a), val(b)), (-1.0, 2.5));
    let (a, b) = middle_pair(&vec![num(3.0), num(1.0), num(2.0)]);
    assert_eq!((val(a), val(b)), (2.0, 2.0));
}
