use std::collections::HashMap;

use lidar_point_cloud_classifier::ieee::{Real32, Real64};
use lidar_point_cloud_classifier::model::centrality::centrality_weight;
use lidar_point_cloud_classifier::model::fusion::{
    candidate_cells, candidate_ranges, fused_label, CellRange, GridGeometry, Place,
};
use lidar_point_cloud_classifier::output::las_writer::{
    check_output_format, classification_to_write, OutputFormat,
};
use lidar_point_cloud_classifier::preprocessing::block_id;
use lidar_point_cloud_classifier::preprocessing::pipeline::BlockManifest;

fn num(x: f64) -> Real64 {
    Real64 { bits: x.to_bits() }
}

fn value(x: Real64) -> f64 {
    f64::from_bits(x.bits)
}

fn grid_2x1() -> GridGeometry {
    GridGeometry {
        x_min: num(0.0),
        y_min: num(0.0),
        block_size: num(50.0),
        grid_cols: 2,
        grid_rows: 1,
    }
}

/// One sampled point of a block and the probabilities of its logits.
struct Sample {
    x: f64,
    y: f64,
    probs: Vec<Real32>,
}

fn sample(x: f64, y: f64, logits: &[f32]) -> Sample {
    let max = logits.iter().copied().fold(f32::NEG_INFINITY, f32::max);
    let e: Vec<f64> = logits.iter().map(|v| f64::from(v - max).exp()).collect();
    let sum: f64 = e.iter().sum();
    let probs = e.iter().map(|v| Real32 { bits: ((v / sum) as f32).to_bits() }).collect();
    Sample { x, y, probs }
}

fn centrality(x: f64, y: f64, ox: f64, oy: f64, s: f64, r: f64) -> f64 {
    value(centrality_weight(
        num(x),
        num(y),
        num(ox),
        num(oy),
        num(s),
        num(r),
        |a: Real64, b: Real64| num(value(a) + value(b)),
        |a: Real64, b: Real64| num(value(a) - value(b)),
        |a: Real64, b: Real64| num(value(a) / value(b)),
        |a: Real64, b: Real64| num(value(a) * value(b)),
    ))
}

fn place(x: f64, y: f64, grid: &GridGeometry, r: f64) -> Place {
    let s = value(grid.block_size);
    let (x0, y0) = (value(grid.x_min), value(grid.y_min));
    let col = ((x - x0) / s).floor();
    let row = ((y - y0) / s).floor();
    let (home_x, home_y) = (x0 + col * s, y0 + row * s);
    let inset = (x - home_x).min(home_x + s - x).min((y - home_y).min(home_y + s - y));
    Place {
        col: col as i64,
        row: row as i64,
        inset: num(inset),
        col_west: ((x - r - x0) / s).floor() as i64,
        col_east: ((x + r - x0) / s).floor() as i64,
        row_south: ((y - r - y0) / s).floor() as i64,
        row_north: ((y + r - y0) / s).floor() as i64,
    }
}

fn label(x: f64, y: f64, map: &HashMap<u64, Sample>, r: f64, sigma: f64) -> Option<usize> {
    label_in(grid_2x1(), x, y, map, r, sigma)
}

fn label_in(
    grid: GridGeometry,
    x: f64,
    y: f64,
    map: &HashMap<u64, Sample>,
    r: f64,
    sigma: f64,
) -> Option<usize> {
    let s = value(grid.block_size);
    fused_label(
        &place(x, y, &grid, r),
        &grid,
        num(r),
        2,
        |id: u64| {
            let b = map.get(&id)?;
            let d2 = (b.x - x).powi(2) + (b.y - y).powi(2);
            Some((num(d2), b.probs.clone()))
        },
        |col: i64, row: i64| num(centrality(x, y, col as f64 * s, row as f64 * s, s, r)),
        |t: Real64, d2: Real64| num(value(t) / (value(d2) + sigma * sigma)),
        |score: Real64, vote: Real64, p: Real32| {
            num(value(score) + value(vote) * f64::from(f32::from_bits(p.bits)))
        },
    )
}

fn show(x: Real64) -> String {
    f64::from_bits(x.bits).to_string()
}

#[test]
fn test_centrality_plateau_inside_and_at_edges() {
    assert_eq!(centrality(25.0, 25.0, 0.0, 0.0, 50.0, 10.0), 1.0);
    assert_eq!(centrality(50.0, 25.0, 0.0, 0.0, 50.0, 10.0), 1.0);
}

#[test]
fn test_centrality_ramps_linearly_outside() {
    assert_eq!(centrality(55.0, 25.0, 0.0, 0.0, 50.0, 10.0), 0.5);
    assert_eq!(centrality(60.0, 25.0, 0.0, 0.0, 50.0, 10.0), 0.0);
    assert_eq!(centrality(61.0, 25.0, 0.0, 0.0, 50.0, 10.0), 0.0);
    assert_eq!(centrality(-2.5, 25.0, 0.0, 0.0, 50.0, 10.0), 0.75);
}

#[test]
fn test_centrality_corner_is_axis_product() {
    assert_eq!(centrality(55.0, 55.0, 0.0, 0.0, 50.0, 10.0), 0.25);
}

#[test]
fn test_centrality_continuity_at_rect_edge_and_ramp_toe() {
    let inside = centrality(50.0 - 1e-9, 25.0, 0.0, 0.0, 50.0, 10.0);
    let outside = centrality(50.0 + 1e-9, 25.0, 0.0, 0.0, 50.0, 10.0);
    assert!((inside - outside).abs() < 1e-6);
    let before = centrality(60.0 - 1e-9, 25.0, 0.0, 0.0, 50.0, 10.0);
    let after = centrality(60.0 + 1e-9, 25.0, 0.0, 0.0, 50.0, 10.0);
    assert!((before - after).abs() < 1e-6);
    assert_eq!(after, 0.0);
}

#[test]
fn test_centrality_zero_radius_is_membership() {
    assert_eq!(centrality(25.0, 25.0, 0.0, 0.0, 50.0, 0.0), 1.0);
    assert_eq!(centrality(55.0, 25.0, 0.0, 0.0, 50.0, 0.0), 0.0);
    assert_eq!(centrality(25.0, -1.0, 0.0, 0.0, 50.0, -3.0), 0.0);
}

#[test]
fn places_that_no_block_covers_have_no_label() {
    // The only block is that of row 1, column 0; its number is also what column 2
    // of row 0 would have.
    let grid = GridGeometry { grid_rows: 2, ..grid_2x1() };
    let mut map = HashMap::new();
    map.insert(2u64, sample(25.0, 75.0, &[0.0, 1.0]));
    assert_eq!(label_in(grid, 25.0, 75.0, &map, 0.0, 1.0), Some(1));
    for (x, y) in [(100.0, 25.0), (-25.0, 25.0), (125.0, 25.0), (25.0, 125.0), (25.0, 25.0)] {
        assert_eq!(label_in(grid, x, y, &map, 0.0, 1.0), None, "{x} {y}");
        assert_eq!(label_in(grid, x, y, &map, 10.0, 1.0), None, "{x} {y}");
    }
    // A block reaches beyond the edge of the grid.
    assert_eq!(label_in(grid, -5.0, 75.0, &map, 10.0, 1.0), Some(1));
    assert_eq!(label_in(grid, -5.0, 75.0, &map, 0.0, 1.0), None);
}

fn two_block_map() -> HashMap<u64, Sample> {
    let mut map = HashMap::new();
    map.insert(0u64, sample(49.0, 25.0, &[0.51, 0.49]));
    map.insert(1u64, sample(51.0, 25.0, &[0.05, 0.95]));
    map
}

#[test]
fn test_candidate_ranges_at_most_four_for_r_le_half_block() {
    let grid = grid_2x1();
    for x in [0.0, 12.3, 25.0, 37.7, 49.999, 50.0, 62.4, 75.0, 99.9] {
        let c = candidate_ranges(&place(x, 25.0, &grid, 25.0), &grid);
        assert!(c.col_hi - c.col_lo <= 1, "x={x}");
        assert!(c.row_hi - c.row_lo <= 1, "x={x}");
        assert!(candidate_cells(&c).len() <= 4);
    }
}

#[test]
fn test_candidate_ranges_hit_both_cells_at_seam_and_clamp_at_borders() {
    let grid = grid_2x1();
    let c = candidate_ranges(&place(50.0, 25.0, &grid, 10.0), &grid);
    assert_eq!((c.col_lo, c.col_hi), (0, 1));
    let c = candidate_ranges(&place(1.0, 25.0, &grid, 10.0), &grid);
    assert_eq!((c.col_lo, c.col_hi), (0, 0));
    let c = candidate_ranges(&place(25.0, 25.0, &grid, 10.0), &grid);
    assert_eq!((c.row_lo, c.row_hi), (0, 0));
}

#[test]
fn candidates_run_from_south_west_to_north_east() {
    let c = CellRange { col_lo: 3, col_hi: 4, row_lo: 7, row_hi: 8 };
    assert_eq!(candidate_cells(&c), vec![(3, 7), (4, 7), (3, 8), (4, 8)]);
    let c = CellRange { col_lo: 3, col_hi: 2, row_lo: 7, row_hi: 8 };
    assert!(candidate_cells(&c).is_empty());
    let c = CellRange { col_lo: 3, col_hi: 4, row_lo: 8, row_hi: 7 };
    assert!(candidate_cells(&c).is_empty());
}

#[test]
fn test_fusion_off_matches_legacy_single_block() {
    assert_eq!(label(49.999, 25.0, &two_block_map(), 0.0, 1.0), Some(0));
}

#[test]
fn test_fused_blend_can_flip_weak_canonical_via_confident_neighbour() {
    assert_eq!(label(49.999, 25.0, &two_block_map(), 10.0, 1.0), Some(1));
}

#[test]
fn test_interior_point_unaffected_by_fusion() {
    assert_eq!(label(25.0, 25.0, &two_block_map(), 10.0, 1.0), Some(0));
}

#[test]
fn test_missing_canonical_with_neighbour_in_range_still_labels() {
    let mut map = HashMap::new();
    map.insert(1u64, sample(51.0, 25.0, &[0.05, 0.95]));
    assert_eq!(label(49.0, 25.0, &map, 10.0, 1.0), Some(1));
}

#[test]
fn the_only_block_that_votes_decides() {
    let mut map = HashMap::new();
    map.insert(1u64, sample(51.0, 25.0, &[0.3, 0.7]));
    for x in [45.0, 49.0, 50.5, 55.0] {
        assert_eq!(label(x, 25.0, &map, 10.0, 1.0), Some(1), "{x}");
    }
    map.insert(1u64, sample(51.0, 25.0, &[0.7, 0.3]));
    for x in [45.0, 49.0, 50.5, 55.0] {
        assert_eq!(label(x, 25.0, &map, 10.0, 1.0), Some(0), "{x}");
    }
}

#[test]
fn test_missing_canonical_deep_interior_returns_none() {
    let mut map = HashMap::new();
    map.insert(1u64, sample(51.0, 25.0, &[0.05, 0.95]));
    assert_eq!(label(25.0, 25.0, &map, 10.0, 1.0), None);
}

#[test]
fn test_empty_map_returns_none() {
    let map: HashMap<u64, Sample> = HashMap::new();
    assert_eq!(label(49.0, 25.0, &map, 10.0, 1.0), None);
    assert_eq!(label(49.0, 25.0, &map, 0.0, 1.0), None);
}

#[test]
fn test_proximity_weight_demotes_distant_sample() {
    let mut map = HashMap::new();
    map.insert(0u64, sample(49.5, 25.0, &[0.9, 0.1]));
    map.insert(1u64, sample(99.0, 25.0, &[0.1, 0.9]));
    assert_eq!(label(50.0, 25.0, &map, 10.0, 1.0), Some(0));
}

fn manifest(grid_cols: u32, grid_rows: u32, block_size: f64) -> BlockManifest {
    BlockManifest {
        source: "t.las".to_string(),
        block_size: num(block_size),
        target_points: 4,
        min_density: num(1.0),
        search_radius: num(1.0),
        min_neighbors: 1,
        crs_epsg: None,
        grid_cols,
        grid_rows,
        grid_x_min: num(0.0),
        grid_y_min: num(0.0),
        outlier_removal: false,
        outlier_radius: num(2.0),
        outlier_elev_diff: num(50.0),
        outlier_use_median: false,
        block_overlap: num(0.0),
        oversample_jitter: num(0.0),
        z_norm_use_block_relative: false,
        halo_fraction: num(0.0),
        blocks: Vec::new(),
    }
}

#[test]
fn test_grid_geometry_rejects_missing_grid_fields() {
    let mut m = manifest(0, 0, 50.0);
    assert!(GridGeometry::from_manifest(&m, show).is_err());
    m.grid_cols = 2;
    m.grid_rows = 1;
    assert!(GridGeometry::from_manifest(&m, show).is_ok());
}

#[test]
fn grids_need_cells_with_a_size() {
    let g = GridGeometry::from_manifest(&manifest(2, 1, 50.0), show).expect("grid");
    assert_eq!((g.grid_cols, g.grid_rows, g.block_size), (2, 1, num(50.0)));
    for (m, message) in [
        (
            manifest(2, 0, 50.0),
            "Pipeline error: blocks.json is missing grid_cols/grid_rows — re-run preprocessing to \
             regenerate it",
        ),
        (manifest(2, 1, -2.5), "Pipeline error: blocks.json has non-positive block_size (-2.5)"),
        (
            manifest(2, 1, f64::NAN),
            "Pipeline error: blocks.json has non-positive block_size (NaN)",
        ),
    ] {
        match GridGeometry::from_manifest(&m, show) {
            Err(e) => assert_eq!(e.message(), message),
            Ok(_) => panic!("no grid"),
        }
    }
}

#[test]
fn block_ids_number_the_cells_row_by_row() {
    assert_eq!(block_id(0, 0, 7), 0);
    assert_eq!(block_id(2, 3, 7), 17);
    assert_eq!(block_id(1, 0, 2), 2);
    assert_eq!(block_id(-1, 0, 2), u64::MAX - 1);
}

// ── Writing labels ──────────────────────────────────────────────────────────

#[test]
fn test_write_classified_substitutes_classification() {
    let map = vec![2u8, 6u8];
    assert_eq!(classification_to_write(1, 2, Some(1), &map), 6);
    assert_eq!(classification_to_write(1, 2, Some(0), &map), 2);
    assert_eq!(classification_to_write(9, 2, Some(5), &map), 1);
}

#[test]
fn test_write_classified_fusion_blends_seam_and_preserves_interior() {
    let map = two_block_map();
    let labels = vec![2u8, 6u8];
    let written = |x: f64, r: f64| {
        classification_to_write(1, 2, label(x, 25.0, &map, r, 1.0), &labels)
    };
    assert_eq!(written(49.999, 0.0), 2);
    assert_eq!(written(49.999, 10.0), 6);
    assert_eq!(written(25.0, 10.0), 2);
}

#[test]
fn test_write_classified_preserves_when_no_votes() {
    assert_eq!(classification_to_write(9, 2, None, &vec![2u8, 6u8]), 9);
    assert_eq!(classification_to_write(9, 0, Some(0), &vec![2u8, 6u8]), 9);
}

#[test]
fn points_are_written_as_las_or_laz_only() {
    assert!(check_output_format(OutputFormat::Las).is_ok());
    assert!(check_output_format(OutputFormat::Laz).is_ok());
    assert_eq!(
        check_output_format(OutputFormat::Other).unwrap_err().message(),
        "Pipeline error: output format must be .las or .laz (COPC write not supported by wblidar)"
    );
}
