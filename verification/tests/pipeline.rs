use std::collections::HashMap;

use lidar_point_cloud_classifier::ieee::Real64;
use lidar_point_cloud_classifier::preprocessing::block_partitioner::{BlockPartitioner, BlockStub};
use lidar_point_cloud_classifier::preprocessing::cell_index::CellIndex;
use lidar_point_cloud_classifier::preprocessing::config::{
    HagNormalization, PreprocessConfig, DEFAULT_DTM_RESOLUTION, DEFAULT_HAG_MAX_METERS,
};
use lidar_point_cloud_classifier::preprocessing::label_inverse::inverse_label_map;
use lidar_point_cloud_classifier::preprocessing::labeled_pipeline::{
    compute_macro_tile_id, fitting_macro_tile_id, read_label_map, remap, LabeledPreprocessConfig, SpatialTileGrid,
};
use lidar_point_cloud_classifier::preprocessing::labels::{
    class_distribution, label_block, label_blocks, labeled_manifest, BlockClasses,
};
use lidar_point_cloud_classifier::preprocessing::lite_point::LitePoint;
use lidar_point_cloud_classifier::preprocessing::pipeline::{
    build_manifest, density_gate, input_format, load_border_points, neighbouring_blocks,
    sort_results, BlockManifest, BlockMeta, BlockProcessResult, Extent, GroundSource, HeaderGrid,
    InputFormat,
};
use lidar_point_cloud_classifier::text_map::TextMap;

fn num(x: f64) -> Real64 {
    Real64 { bits: x.to_bits() }
}

fn point(x: f64, y: f64) -> LitePoint {
    LitePoint { x: num(x), y: num(y), ..LitePoint::default() }
}

// ── Configuration ───────────────────────────────────────────────────────────

#[test]
fn test_preprocess_config_default_overlap() {
    let cfg = PreprocessConfig::default();
    assert_eq!(f64::from_bits(cfg.block_overlap.bits), 0.0);
}

#[test]
fn test_preprocess_config_default_auto_dtm() {
    let cfg = PreprocessConfig::default();
    assert!(cfg.auto_dtm, "auto-DTM must default to enabled");
    assert_eq!(cfg.auto_dtm_resolution.bits, DEFAULT_DTM_RESOLUTION);
    assert_eq!(f64::from_bits(DEFAULT_DTM_RESOLUTION), 1.0);
    assert!(!cfg.keep_auto_dtm, "intermediates must be deleted by default");
}

#[test]
fn test_hag_normalization_default_is_fixed_50m() {
    assert_eq!(
        HagNormalization::default(),
        HagNormalization::FixedMeters(Real64 { bits: DEFAULT_HAG_MAX_METERS })
    );
    assert_eq!(f64::from_bits(DEFAULT_HAG_MAX_METERS), 50.0);
}

#[test]
fn radii_are_sorted_or_the_base_radius() {
    let mut cfg = PreprocessConfig::default();
    assert_eq!(cfg.search_radii_effective(), vec![num(1.0)]);
    cfg.search_radii = vec![num(2.0), num(0.5)];
    assert_eq!(cfg.search_radii_effective(), vec![num(0.5), num(2.0)]);
}

#[test]
fn formats_follow_extensions() {
    assert!(matches!(input_format("a/b.LAS"), Ok(InputFormat::Las)));
    assert!(matches!(input_format("b.laz"), Ok(InputFormat::Laz)));
    assert!(matches!(input_format("b.copc"), Ok(InputFormat::Copc)));
    assert!(input_format("b.ply").is_err());
    assert!(input_format("las").is_err());
}

#[test]
fn ground_comes_from_the_raster_or_the_input() {
    let mut cfg = PreprocessConfig::default();
    assert!(matches!(cfg.ground_source(), GroundSource::Generated));
    cfg.auto_dtm = false;
    assert!(matches!(cfg.ground_source(), GroundSource::BlockMinimum));
    cfg.hag_model = Some("dtm.tif".to_string());
    match cfg.ground_source() {
        GroundSource::External(p) => assert_eq!(p, "dtm.tif"),
        _ => panic!("the raster must be used"),
    }
}

#[test]
fn intermediates_replace_the_input_and_are_deleted() {
    let mut cfg = PreprocessConfig::default();
    cfg.input = "in.las".to_string();
    cfg.output_dir = "out".to_string();
    assert_eq!(cfg.effective_input(), "in.las");
    cfg.outlier_removal = true;
    assert_eq!(cfg.effective_input(), "out/_outlier_cleaned.las");
    assert_eq!(
        cfg.files_to_delete(),
        vec!["_outlier_cleaned.las", "_auto_dtm.tif", "_auto_ground.las"]
    );
    cfg.keep_auto_dtm = true;
    assert_eq!(cfg.files_to_delete(), vec!["_outlier_cleaned.las"]);
}

// ── Blocks ──────────────────────────────────────────────────────────────────

fn stub(col: i32, row: i32, id: u64, n: u64) -> BlockStub {
    BlockStub { col, row, id, files: 1, point_count: n }
}

#[test]
fn sparse_blocks_are_dropped() {
    let stubs = vec![stub(0, 0, 0, 100), stub(1, 0, 1, 99), stub(2, 0, 2, 250)];
    let kept = density_gate(&stubs, |n: u64| num(n as f64 / 100.0), num(1.0));
    assert_eq!(kept, vec![0, 2]);
}

#[test]
fn test_load_border_points_no_neighbours() {
    let mut partitioner = BlockPartitioner::new(1);
    partitioner.add_point(0, 0, 0, point(25.0, 25.0));
    let (_, stubs) = partitioner.finalize_stubs();
    assert_eq!(stubs.len(), 1);
    let index = CellIndex::new();
    let around = neighbouring_blocks(&index, stubs[0].col, stubs[0].row);
    assert!(around.is_empty());
    let extent =
        Extent { x_lo: num(-5.0), x_hi: num(55.0), y_lo: num(-5.0), y_hi: num(55.0) };
    let result = load_border_points(&Vec::new(), &extent);
    assert!(result.is_empty(), "no neighbours, empty border");
}

#[test]
fn borders_hold_the_points_within_reach() {
    let mut index = CellIndex::new();
    for (p, (c, r)) in [(0, 0), (1, 0), (5, 5), (0, 1)].iter().enumerate() {
        index.insert(*c, *r, p);
    }
    let mut around = neighbouring_blocks(&index, 0, 0);
    around.sort_unstable();
    assert_eq!(around, vec![1, 3]);
    let extent = Extent { x_lo: num(-5.0), x_hi: num(55.0), y_lo: num(-5.0), y_hi: num(55.0) };
    let parts = vec![
        vec![(3, point(55.0, 0.0)), (4, point(55.1, 0.0))],
        vec![(9, point(0.0, 52.0)), (10, point(0.0, -6.0))],
    ];
    let ids: Vec<u64> = load_border_points(&parts, &extent).iter().map(|p| p.0).collect();
    assert_eq!(ids, vec![3, 9]);
}

fn meta(id: u64) -> BlockMeta {
    BlockMeta {
        id,
        file: format!("block_{id:05}.feat"),
        origin_x: num(0.0),
        origin_y: num(0.0),
        raw_point_count: 3,
        sampled_point_count: 3,
        oversampled: false,
        n_halo: 0,
    }
}

fn result(id: u64, sampled: Vec<usize>, halo: Vec<u8>) -> BlockProcessResult {
    let mut m = meta(id);
    m.n_halo = halo.len();
    m.sampled_point_count = sampled.len() + halo.len();
    BlockProcessResult { meta: m, sampled_indices: sampled, halo_classifications: halo }
}

fn manifest_of(results: &Vec<BlockProcessResult>) -> BlockManifest {
    let mut cfg = PreprocessConfig::default();
    cfg.input = "tile.las".to_string();
    cfg.outlier_removal = true;
    let grid = HeaderGrid {
        grid_cols: 4,
        grid_rows: 2,
        x_min: num(100.0),
        y_min: num(200.0),
        crs_epsg: Some(32617),
    };
    build_manifest(&cfg, &grid, results)
}

#[test]
fn manifests_describe_the_run() {
    let results = sort_results(vec![result(5, vec![0], vec![]), result(2, vec![0], vec![])]);
    let m = manifest_of(&results);
    assert_eq!(m.source, "tile.las");
    assert_eq!((m.grid_cols, m.grid_rows), (4, 2));
    assert_eq!(m.crs_epsg, Some(32617));
    assert_eq!(m.target_points, 1024);
    let ids: Vec<u64> = m.blocks.iter().map(|b| b.id).collect();
    assert_eq!(ids, vec![2, 5]);
}

// ── Labels ──────────────────────────────────────────────────────────────────

#[test]
fn test_label_remap_unknown_code() {
    let map = LabeledPreprocessConfig::default_label_map();
    let unassigned = 7u8;
    assert_eq!(remap(42, &map, unassigned), unassigned);
    assert_eq!(remap(2, &map, unassigned), 0);
}

#[test]
fn test_macro_tile_assignment() {
    let cell = |x: f64, y: f64| {
        compute_macro_tile_id((x / 100.0).floor() as i64, (y / 100.0).floor() as i64, 4)
    };
    assert_eq!(cell(0.0, 0.0), 0);
    assert_eq!(cell(100.0, 0.0), 1);
    assert_eq!(cell(0.0, 100.0), 4);
    assert_eq!(cell(399.0, 399.0), 15);
    assert_eq!(cell(500.0, 500.0), 15);
}

#[test]
fn label_maps_are_read_from_json() {
    let map = read_label_map(&b"{\"2\": 0, \"6\": 3}".to_vec()).unwrap();
    assert_eq!(map.len(), 2);
    assert_eq!(map.get(&2), Some(&0));
    assert_eq!(map.get(&6), Some(&3));
    assert!(read_label_map(&b"{\"2\": 300}".to_vec()).is_err());
    assert!(read_label_map(&b"[]".to_vec()).is_err());
}

#[test]
fn labels_cover_core_and_halo_rows() {
    let map = LabeledPreprocessConfig::default_label_map();
    let r = result(0, vec![1, 0, 2], vec![6, 42]);
    let labels = label_block(&r, &vec![2, 5, 0], &map).expect("classified");
    assert_eq!(labels.len(), 5);
    assert_eq!(labels[1], 0);
    assert_eq!(labels[0], map[&5]);
    assert_eq!(labels[3], map[&6]);
    assert!(label_block(&result(0, vec![0, 1], vec![]), &vec![0, 0], &map).is_none());
}

#[test]
fn one_classified_point_keeps_a_block() {
    let map = LabeledPreprocessConfig::default_label_map();
    let r = result(0, vec![0, 1], vec![]);
    assert_eq!(label_block(&r, &vec![0, 0, 2], &map), Some(vec![7, 7]));
    assert_eq!(label_block(&r, &vec![0, 0, 0], &map), None);
    assert_eq!(label_block(&r, &vec![], &map), None);
}

#[test]
fn tile_numbers_fit_or_are_refused() {
    assert_eq!(compute_macro_tile_id(5, 0, usize::MAX), 5);
    assert_eq!(compute_macro_tile_id(-3, 1, 70_000), 70_000);
    assert_eq!(fitting_macro_tile_id(65_535, 65_535, 65_536), Some(u32::MAX));
    assert_eq!(fitting_macro_tile_id(0, 65_536, 65_537), None);
    assert_eq!(fitting_macro_tile_id(i64::MAX, i64::MAX, usize::MAX), None);
}

#[test]
fn classes_are_counted() {
    let d = class_distribution(&vec![0, 3, 3, 7]);
    assert_eq!(d.len(), 3);
    assert_eq!(d.get("0"), Some(1));
    assert_eq!(d.get("3"), Some(2));
    assert_eq!(d.get("7"), Some(1));
}

#[test]
fn points_are_routed_to_retained_blocks() {
    let results = vec![result(5, vec![0, 1], vec![]), result(2, vec![0], vec![])];
    let manifest = manifest_of(&results);
    let mut classes = BlockClasses::new(&manifest).unwrap();
    classes.route_point(1, 1, 2);
    classes.route_point(1, 1, 6);
    classes.route_point(2, 0, 0);
    classes.route_point(0, 0, 9);
    classes.route_point(4, 1, 9);
    classes.route_point(-1, 0, 9);
    assert_eq!(classes.get(5), Some(&vec![2, 6]));
    assert_eq!(classes.get(2), Some(&vec![0]));
    assert_eq!(classes.get(0), None);
    let map = LabeledPreprocessConfig::default_label_map();
    let labeled = label_blocks(&results, &classes, &map, &vec![(0, 0), (3, 3)], 4);
    assert_eq!(labeled.len(), 1, "a block that was never classified is left out");
    assert_eq!(labeled[0].meta.meta.id, 5);
    assert_eq!(labeled[0].meta.lbl_file, "block_00005.lbl");
    assert_eq!(labeled[0].labels, vec![0, map[&6]]);
    let grid = SpatialTileGrid {
        cols: 4,
        rows: 4,
        bbox_min_x: num(0.0),
        bbox_min_y: num(0.0),
        bbox_max_x: num(1.0),
        bbox_max_y: num(1.0),
    };
    let blocks = labeled.into_iter().map(|b| b.meta).collect();
    let m = labeled_manifest(&manifest, vec![num(1.0)], &map, grid, blocks);
    assert_eq!(m.label_map.get("2"), Some(0));
    assert_eq!(m.label_map.len(), map.len());
    assert_eq!(m.blocks.len(), 1);

    let mut old = manifest_of(&results);
    old.grid_cols = 0;
    assert!(BlockClasses::new(&old).is_err());
}

#[test]
fn inverse_maps_take_the_lowest_code() {
    let mut map = TextMap::new();
    map.insert("2", 0);
    map.insert("11", 1);
    map.insert("6", 1);
    let inverse = inverse_label_map(&map, 2).unwrap();
    assert_eq!(inverse[0], 2);
    let forward: HashMap<u8, u8> = [(2, 0), (11, 1), (6, 1)].into_iter().collect();
    assert_eq!(forward[&inverse[1]], 1);
    assert!(inverse_label_map(&map, 3).is_err());
}
