use std::collections::HashSet;

use lidar_point_cloud_classifier::error::ClassifierError;
use lidar_point_cloud_classifier::ieee::Real64;
use lidar_point_cloud_classifier::ordering::{seeded_shuffle, sort_desc};
use lidar_point_cloud_classifier::preprocessing::dataset_split::{
    derive_n_classes, group_tiles, select_stride_subset, three_way_spatial_split,
    three_way_spatial_split_multi, validate_manifest_compatibility, MultiThreeWaySplit,
    RealDiffers, SplitRequest, ThreeWaySplit,
};
use lidar_point_cloud_classifier::preprocessing::labeled_pipeline::{
    LabeledBlockManifest, LabeledBlockMeta, SpatialTileGrid,
};
use lidar_point_cloud_classifier::preprocessing::pipeline::BlockMeta;
use lidar_point_cloud_classifier::preprocessing::split_assign::{
    rebalance_by_size, CostOrder, SplitState, TileInfo,
};
use lidar_point_cloud_classifier::preprocessing::subset::{
    file_steps, plan_subset, sort_refs, subset_manifest, subsets_to_write, FileStep,
};
use lidar_point_cloud_classifier::preprocessing::tile_counts::count_points;
use lidar_point_cloud_classifier::text_map::TextMap;

fn num(x: f64) -> Real64 {
    Real64 { bits: x.to_bits() }
}

fn make_block(id: u64, macro_tile_id: u32, class_counts: &[(u8, u64)]) -> LabeledBlockMeta {
    let mut dist = TextMap::new();
    let mut total = 0u64;
    for &(c, n) in class_counts {
        dist.insert(&c.to_string(), n);
        total += n;
    }
    LabeledBlockMeta {
        meta: BlockMeta {
            id,
            file: format!("block_{id:05}.feat"),
            origin_x: num(0.0),
            origin_y: num(0.0),
            raw_point_count: total as usize,
            sampled_point_count: total as usize,
            oversampled: false,
            n_halo: 0,
        },
        lbl_file: format!("block_{id:05}.lbl"),
        macro_tile_id,
        class_distribution: dist,
    }
}

fn dummy_manifest(blocks: Vec<LabeledBlockMeta>, n_classes: usize) -> LabeledBlockManifest {
    let mut label_map = TextMap::new();
    for c in 0..n_classes {
        label_map.insert(&c.to_string(), c as u8);
    }
    LabeledBlockManifest {
        source: "test.las".to_string(),
        block_size: num(50.0),
        target_points: 1024,
        min_density: num(1.0),
        search_radius: num(1.0),
        search_radii: Vec::new(),
        min_neighbors: 8,
        crs_epsg: None,
        label_map,
        spatial_tile_grid: SpatialTileGrid {
            cols: 4,
            rows: 4,
            bbox_min_x: num(0.0),
            bbox_min_y: num(0.0),
            bbox_max_x: num(200.0),
            bbox_max_y: num(200.0),
        },
        halo_fraction: num(0.0),
        blocks,
    }
}

fn request(val: f64, test: f64, seed: u64, max: usize) -> SplitRequest {
    let train = 1.0 - val - test;
    let shares = |frac: f64| -> Vec<usize> {
        (0..=max).map(|n| ((n as f64 * frac).round().max(0.0) as usize).min(n)).collect()
    };
    SplitRequest {
        val_split: num(val),
        test_split: num(test),
        sum_reaches_one: val + test >= 1.0,
        train_active: train > 0.0,
        train_shares: shares(train),
        val_shares: shares(val),
        test_shares: shares(test),
        seed,
    }
}

fn props(global: &[u64]) -> Vec<f64> {
    let total: u64 = global.iter().sum();
    if total == 0 {
        vec![0.0; global.len()]
    } else {
        global.iter().map(|&c| c as f64 / total as f64).collect()
    }
}

fn class_cost(counts: &[u64], total: u64, global: &[f64]) -> f64 {
    if total == 0 {
        return 0.0;
    }
    (0..counts.len()).map(|c| (counts[c] as f64 / total as f64 - global[c]).powi(2)).sum()
}

fn ranking(a: u64, b: u64) -> CostOrder {
    let (a, b) = (f64::from_bits(a), f64::from_bits(b));
    if a < b - 1e-12 {
        CostOrder::Cheaper
    } else if (a - b).abs() <= 1e-12 {
        CostOrder::Tied
    } else {
        CostOrder::Dearer
    }
}

fn move_cost(global: &Vec<u64>, dt: u64, dc: &Vec<u64>, rt: u64, rc: &Vec<u64>) -> u64 {
    let p = props(global);
    (class_cost(dc, dt, &p) + class_cost(rc, rt, &p)).to_bits()
}

fn placement_cost(val: f64, test: f64) -> impl Fn(&Vec<u64>, usize, u64, &Vec<u64>) -> u64 + Copy {
    move |global: &Vec<u64>, s: usize, total: u64, counts: &Vec<u64>| {
        let grand: u64 = global.iter().sum::<u64>().max(1);
        let frac = [1.0 - val - test, val, test][s];
        let size = (total as f64 / grand as f64 - frac).powi(2);
        (4.0 * size + class_cost(counts, total, &props(global))).to_bits()
    }
}

fn split(
    manifest: &LabeledBlockManifest,
    val: f64,
    test: f64,
    seed: u64,
    stratify: bool,
) -> Result<ThreeWaySplit, ClassifierError> {
    let r = request(val, test, seed, manifest.blocks.len());
    three_way_spatial_split(manifest, &r, stratify, placement_cost(val, test), move_cost, ranking)
}

fn show(x: Real64) -> String {
    f64::from_bits(x.bits).to_string()
}

fn differences(manifests: &[&LabeledBlockManifest]) -> Vec<RealDiffers> {
    let far = |a: Real64, b: Real64| {
        (f64::from_bits(a.bits) - f64::from_bits(b.bits)).abs() > 1e-9
    };
    manifests
        .iter()
        .map(|m| RealDiffers {
            block_size: far(m.block_size, manifests[0].block_size),
            min_density: far(m.min_density, manifests[0].min_density),
            search_radius: far(m.search_radius, manifests[0].search_radius),
        })
        .collect()
}

fn split_multi(
    manifests: &[&LabeledBlockManifest],
    val: f64,
    test: f64,
    seed: u64,
    stratify: bool,
) -> Result<MultiThreeWaySplit, ClassifierError> {
    let n: usize = manifests.iter().map(|m| m.blocks.len()).sum();
    let r = request(val, test, seed, n);
    three_way_spatial_split_multi(
        manifests,
        &differences(manifests),
        &r,
        stratify,
        placement_cost(val, test),
        move_cost,
        ranking,
        show,
    )
}

#[test]
fn test_non_stratified_fraction_semantics_match_2way() {
    let blocks: Vec<_> = (0..16u64).map(|i| make_block(i, i as u32, &[(0, 10)])).collect();
    let manifest = dummy_manifest(blocks, 1);
    let s = split(&manifest, 0.25, 0.0, 42, false).unwrap();
    assert_eq!(s.val_ids.len(), 4, "expected 4 val blocks");
    assert_eq!(s.train_ids.len(), 12, "expected 12 train blocks");
    assert_eq!(s.test_ids.len(), 0, "expected 0 test blocks");
}

#[test]
fn test_three_way_split_disjoint_and_complete() {
    let blocks: Vec<_> =
        (0..30u64).map(|i| make_block(i, (i % 10) as u32, &[(0, 5), (1, 5)])).collect();
    let manifest = dummy_manifest(blocks, 2);
    for stratify in [false, true] {
        let s = split(&manifest, 0.2, 0.2, 7, stratify).unwrap();
        let mut all: Vec<u64> = Vec::new();
        all.extend(&s.train_ids);
        all.extend(&s.val_ids);
        all.extend(&s.test_ids);
        all.sort_unstable();
        let expected: Vec<u64> = (0..30u64).collect();
        assert_eq!(all, expected, "stratify={stratify}");
        let train: HashSet<u64> = s.train_ids.iter().copied().collect();
        let val: HashSet<u64> = s.val_ids.iter().copied().collect();
        let test: HashSet<u64> = s.test_ids.iter().copied().collect();
        assert!(train.is_disjoint(&val), "stratify={stratify}");
        assert!(train.is_disjoint(&test), "stratify={stratify}");
        assert!(val.is_disjoint(&test), "stratify={stratify}");
    }
}

#[test]
fn subsets_without_a_fraction_get_no_block() {
    let blocks: Vec<_> =
        (0..30u64).map(|i| make_block(i, (i % 10) as u32, &[(0, 5), (1, 3 * i)])).collect();
    let manifest = dummy_manifest(blocks, 2);
    for stratify in [false, true] {
        let no_test = split(&manifest, 0.3, 0.0, 7, stratify).unwrap();
        assert!(no_test.test_ids.is_empty(), "stratify={stratify}");
        assert!(!no_test.val_ids.is_empty() && !no_test.train_ids.is_empty());
        let no_val = split(&manifest, 0.0, 0.3, 7, stratify).unwrap();
        assert!(no_val.val_ids.is_empty(), "stratify={stratify}");
        assert!(!no_val.test_ids.is_empty() && !no_val.train_ids.is_empty());
        let only_train = split(&manifest, 0.0, 0.0, 7, stratify).unwrap();
        assert_eq!(only_train.train_ids.len(), 30, "stratify={stratify}");
    }
}

#[test]
fn test_rejects_out_of_range_fractions() {
    let manifest = dummy_manifest(vec![make_block(0, 0, &[(0, 1)])], 1);
    assert!(split(&manifest, 1.0, 0.0, 0, false).is_err());
    assert!(split(&manifest, 0.5, 0.5, 0, false).is_err());
    assert!(split(&manifest, -0.1, 0.0, 0, false).is_err());
}

#[test]
fn test_stratification_reduces_class_imbalance() {
    let mut blocks = Vec::new();
    for i in 0..7u64 {
        blocks.push(make_block(i, i as u32, &[(0, 100), (1, 1)]));
    }
    for i in 7..10u64 {
        blocks.push(make_block(i, i as u32, &[(0, 1), (1, 100)]));
    }
    let manifest = dummy_manifest(blocks, 2);
    let non_strat = split(&manifest, 0.3, 0.0, 3, false).unwrap();
    let strat = split(&manifest, 0.3, 0.0, 3, true).unwrap();
    let tag = |ids: &[u64]| -> Vec<(usize, u64)> { ids.iter().map(|&i| (0, i)).collect() };
    let all: Vec<u64> = (0..10).collect();
    let counts = class_counts(&[&manifest], &tag(&all), 2);
    let global = props(&counts);
    let a = deviation(&[&manifest], &tag(&non_strat.val_ids), &global, 2);
    let b = deviation(&[&manifest], &tag(&strat.val_ids), &global, 2);
    assert!(b < a, "stratified deviation ({b}) should be lower than ({a})");
}

#[test]
fn test_rebalance_fixes_severe_greedy_size_overshoot() {
    let blocks: Vec<_> = (0..50u64).map(|i| make_block(i, i as u32, &[(0, 100)])).collect();
    let manifest = dummy_manifest(blocks, 1);
    let s = split(&manifest, 0.2, 0.0, 42, true).unwrap();
    assert_eq!(s.train_ids.len() + s.val_ids.len(), 50);
    let target_val_tiles = 10i64;
    let actual_val_tiles = s.val_ids.len() as i64;
    assert!((actual_val_tiles - target_val_tiles).abs() <= 1);
}

#[test]
fn test_rebalance_by_size_isolated_donor_to_recipient() {
    let tiles: Vec<TileInfo> = (0..5u32)
        .map(|i| TileInfo { key: (0, i), counts: vec![100], total: 100 })
        .collect();
    let mut state = SplitState {
        assigned: vec![Vec::new(), vec![0, 1, 2, 3, 4], Vec::new()],
        totals: vec![0, 500, 0],
        counts: vec![vec![0], vec![500], vec![0]],
    };
    let global = [1.0];
    rebalance_by_size(
        &tiles,
        1,
        &[true, true, false],
        &[4, 1, 0],
        &mut state,
        |dt: u64, dc: &Vec<u64>, rt: u64, rc: &Vec<u64>| {
            (class_cost(dc, dt, &global) + class_cost(rc, rt, &global)).to_bits()
        },
        ranking,
    );
    assert_eq!(state.assigned[0].len(), 3);
    assert_eq!(state.assigned[1].len(), 2);
    assert_eq!(state.assigned[2].len(), 0);
    assert_eq!(state.totals[0], 300);
    assert_eq!(state.totals[1], 200);
    assert_eq!(state.counts[0][0], 300);
    assert_eq!(state.counts[1][0], 200);
    let mut all: Vec<usize> = state.assigned.concat();
    all.sort_unstable();
    assert_eq!(all, vec![0, 1, 2, 3, 4]);
}

#[test]
fn test_stratified_split_rebalancing_is_deterministic() {
    let mut blocks = Vec::new();
    for i in 0..7u64 {
        blocks.push(make_block(i, i as u32, &[(0, 100), (1, 1)]));
    }
    for i in 7..40u64 {
        blocks.push(make_block(i, i as u32, &[(0, 1), (1, 100)]));
    }
    let manifest = dummy_manifest(blocks, 2);
    let a = split(&manifest, 0.2, 0.1, 99, true).unwrap();
    let b = split(&manifest, 0.2, 0.1, 99, true).unwrap();
    assert_eq!(a.train_ids, b.train_ids);
    assert_eq!(a.val_ids, b.val_ids);
    assert_eq!(a.test_ids, b.test_ids);
}

#[test]
fn test_multi_input_parity_with_single_manifest() {
    let blocks: Vec<_> =
        (0..20u64).map(|i| make_block(i, (i % 7) as u32, &[(0, 5), (1, 3)])).collect();
    let manifest = dummy_manifest(blocks, 2);
    for stratify in [false, true] {
        let single = split(&manifest, 0.25, 0.1, 11, stratify).unwrap();
        let multi = split_multi(&[&manifest], 0.25, 0.1, 11, stratify).unwrap();
        let ids = |refs: &[(usize, u64)]| -> Vec<u64> { refs.iter().map(|&(_, id)| id).collect() };
        assert_eq!(ids(&multi.train), single.train_ids, "stratify={stratify}");
        assert_eq!(ids(&multi.val), single.val_ids, "stratify={stratify}");
        assert_eq!(ids(&multi.test), single.test_ids, "stratify={stratify}");
        assert!(multi.train.iter().all(|&(d, _)| d == 0));
    }
}

#[test]
fn test_multi_input_disjoint_and_complete_with_colliding_ids() {
    let blocks = || -> Vec<LabeledBlockMeta> {
        (0..10u64).map(|i| make_block(i, (i % 5) as u32, &[(0, 5), (1, 5)])).collect()
    };
    let manifest_a = dummy_manifest(blocks(), 2);
    let manifest_b = dummy_manifest(blocks(), 2);
    for stratify in [false, true] {
        let s = split_multi(&[&manifest_a, &manifest_b], 0.2, 0.2, 5, stratify).unwrap();
        let mut all: Vec<(usize, u64)> = Vec::new();
        all.extend(&s.train);
        all.extend(&s.val);
        all.extend(&s.test);
        all.sort_unstable();
        let mut expected: Vec<(usize, u64)> = (0..10u64).map(|i| (0, i)).collect();
        expected.extend((0..10u64).map(|i| (1, i)));
        assert_eq!(all, expected, "stratify={stratify}");
        let train: HashSet<(usize, u64)> = s.train.iter().copied().collect();
        let val: HashSet<(usize, u64)> = s.val.iter().copied().collect();
        let test: HashSet<(usize, u64)> = s.test.iter().copied().collect();
        assert!(train.is_disjoint(&val));
        assert!(train.is_disjoint(&test));
        assert!(val.is_disjoint(&test));
    }
}

#[test]
fn test_multi_input_stratification_uses_combined_global_balance() {
    let blocks_a: Vec<_> =
        (0..5u64).map(|i| make_block(i, i as u32, &[(0, 100), (1, 1)])).collect();
    let blocks_b: Vec<_> =
        (0..5u64).map(|i| make_block(i, i as u32, &[(0, 1), (1, 100)])).collect();
    let a = dummy_manifest(blocks_a, 2);
    let b = dummy_manifest(blocks_b, 2);
    let non_strat = split_multi(&[&a, &b], 0.3, 0.0, 3, false).unwrap();
    let strat = split_multi(&[&a, &b], 0.3, 0.0, 3, true).unwrap();
    let global = [0.5, 0.5];
    let dev_non_strat = deviation(&[&a, &b], &non_strat.val, &global, 2);
    let dev_strat = deviation(&[&a, &b], &strat.val, &global, 2);
    assert!(dev_strat < dev_non_strat, "{dev_strat} {dev_non_strat}");
}

#[test]
fn test_validate_manifest_compatibility_rejects_mismatches() {
    let base = || dummy_manifest(vec![make_block(0, 0, &[(0, 1)])], 2);
    let check = |other: &LabeledBlockManifest| {
        let first = base();
        let list = [&first, other];
        validate_manifest_compatibility(&list, &differences(&list), show)
    };
    let message = |other: &LabeledBlockManifest| match check(other) {
        Err(e) => e.message(),
        Ok(_) => panic!("the manifest must be refused"),
    };
    let differ = |field: &str, a: &str, b: &str| {
        format!(
            "Pipeline error: input manifest 1's {field} ({a}) does not match input manifest 0's \
             {field} ({b})"
        )
    };

    let mut m = base();
    m.label_map.insert("99", 5);
    assert_eq!(
        message(&m),
        "Pipeline error: input manifest 1's label_map does not match input manifest 0's label_map — \
         all --input directories must have been preprocessed with the same label mapping"
    );
    let mut m = base();
    m.block_size = num(999.0);
    assert_eq!(message(&m), differ("block_size", "999", "50"));
    let mut m = base();
    m.target_points = 1;
    assert_eq!(message(&m), differ("target_points", "1", "1024"));
    let mut m = base();
    m.min_density = num(999.0);
    assert_eq!(message(&m), differ("min_density", "999", "1"));
    let mut m = base();
    m.search_radius = num(999.0);
    assert_eq!(message(&m), differ("search_radius", "999", "1"));
    let mut m = base();
    m.min_neighbors = 999;
    assert_eq!(message(&m), differ("min_neighbors", "999", &base().min_neighbors.to_string()));
    let mut m = base();
    m.crs_epsg = Some(1234);
    assert_eq!(message(&m), differ("crs_epsg", "Some(1234)", &format!("{:?}", base().crs_epsg)));

    let mut m = base();
    m.source = "different_file.las".to_string();
    assert_eq!(check(&m).unwrap(), 2);
    assert!(validate_manifest_compatibility(&[], &Vec::new(), show).is_err());
}

fn class_counts(
    manifests: &[&LabeledBlockManifest],
    refs: &[(usize, u64)],
    n_classes: usize,
) -> Vec<u64> {
    let set: HashSet<(usize, u64)> = refs.iter().copied().collect();
    let mut counts = vec![0u64; n_classes];
    for (dir, m) in manifests.iter().enumerate() {
        for b in &m.blocks {
            if set.contains(&(dir, b.meta.id)) {
                for c in 0..n_classes {
                    counts[c] += b.class_distribution.get(&c.to_string()).unwrap_or(0);
                }
            }
        }
    }
    counts
}

fn deviation(
    manifests: &[&LabeledBlockManifest],
    refs: &[(usize, u64)],
    global: &[f64],
    n_classes: usize,
) -> f64 {
    let counts = class_counts(manifests, refs, n_classes);
    class_cost(&counts, counts.iter().sum(), global)
}

// ── Tiles and orders ────────────────────────────────────────────────────────

#[test]
fn tiles_of_different_inputs_stay_apart() {
    let a = dummy_manifest(vec![make_block(0, 3, &[]), make_block(1, 1, &[])], 1);
    let b = dummy_manifest(vec![make_block(7, 3, &[])], 1);
    let groups = group_tiles(&[&a, &b]);
    let keys: Vec<(usize, u32)> = groups.iter().map(|g| g.key).collect();
    assert_eq!(keys, vec![(0, 1), (0, 3), (1, 3)]);
    assert_eq!(groups[1].blocks, vec![(0, 0)]);
    assert_eq!(groups[2].blocks, vec![(1, 7)]);
}

#[test]
fn stride_selection_is_even() {
    let picked = |n: usize, share: usize, seed: u64| -> Vec<usize> {
        let flags = select_stride_subset(n, true, share, seed);
        (0..n).filter(|&i| flags[i]).collect()
    };
    assert_eq!(picked(10, 3, 3), vec![0, 3, 6]);
    assert_eq!(picked(16, 4, 42), vec![2, 6, 10, 14]);
    assert_eq!(picked(5, 0, 0), vec![0]);
    assert!(select_stride_subset(5, false, 2, 0).iter().all(|f| !f));
}

#[test]
fn shuffles_permute_and_repeat() {
    let mut a: Vec<u32> = (0..20).collect();
    let mut b = a.clone();
    seeded_shuffle(&mut a, 42);
    seeded_shuffle(&mut b, 42);
    assert_eq!(a, b);
    let mut sorted = a.clone();
    sorted.sort_unstable();
    assert_eq!(sorted, (0..20).collect::<Vec<u32>>());
    assert_ne!(a, sorted);
}

#[test]
fn large_tiles_come_first_and_ties_keep_their_order() {
    let keys = vec![5u64, 9, 5, 1];
    assert_eq!(sort_desc(&vec![3, 2, 1, 0], &keys), vec![1, 2, 0, 3]);
}

#[test]
fn class_numbers_count_distinct_classes() {
    let mut m = TextMap::new();
    assert_eq!(derive_n_classes(&m), 8);
    m.insert("2", 0);
    m.insert("3", 4);
    m.insert("5", 4);
    assert_eq!(derive_n_classes(&m), 2);
}

// ── Subsets ─────────────────────────────────────────────────────────────────

fn fixture(n_blocks: u64, source: &str) -> LabeledBlockManifest {
    let blocks = (0..n_blocks).map(|i| make_block(i, i as u32, &[(0, 4)])).collect();
    let mut m = dummy_manifest(blocks, 1);
    m.source = source.to_string();
    m
}

#[test]
fn test_end_to_end_split_dataset_materializes_loadable_directories() {
    let manifest = fixture(8, "test.las");
    let s = split_multi(&[&manifest], 0.25, 0.0, 7, false).unwrap();
    let manifests = vec![manifest];
    let train = plan_subset(&manifests, 1, &sort_refs(&s.train));
    let val = plan_subset(&manifests, 1, &sort_refs(&s.val));
    assert!(train.fault.is_none() && val.fault.is_none());
    assert!(s.test.is_empty());
    assert_eq!(train.blocks.len(), s.train.len());
    assert_eq!(val.blocks.len(), s.val.len());
    assert_eq!(train.blocks.len() + val.blocks.len(), 8);
    let written = subset_manifest(&manifests, val.blocks);
    assert_eq!(written.blocks.len(), 2);
    assert_eq!(written.target_points, 1024);
}

#[test]
fn test_multi_input_merge_materializes_no_filename_collisions_and_loadable() {
    let a = fixture(6, "file_a.las");
    let b = fixture(6, "file_b.las");
    let s = split_multi(&[&a, &b], 0.25, 0.0, 3, true).unwrap();
    let manifests = vec![a, b];
    let mut total_written = 0usize;
    for refs in [&s.train, &s.val] {
        let plan = plan_subset(&manifests, 2, &sort_refs(refs));
        assert!(plan.fault.is_none());
        let mut seen: HashSet<String> = HashSet::new();
        for c in &plan.copies {
            assert!(seen.insert(c.dst_feat.clone()), "duplicate name {}", c.dst_feat);
            assert!(seen.insert(c.dst_lbl.clone()), "duplicate name {}", c.dst_lbl);
            total_written += 1;
        }
    }
    assert_eq!(total_written, 12);
}

#[test]
fn subsets_refuse_unsafe_names_and_skip_unknown_blocks() {
    let mut m = fixture(2, "t.las");
    m.blocks[1].meta.file = "../x.feat".to_string();
    let manifests = vec![m];
    let plan = plan_subset(&manifests, 1, &vec![(0, 0), (0, 1)]);
    assert!(plan.fault.expect("fault").message().contains("../x.feat"));
    assert_eq!(plan.copies.len(), 1);
    let skipped = plan_subset(&manifests, 1, &vec![(0, 99), (1, 0)]);
    assert!(skipped.fault.is_none() && skipped.copies.is_empty());
    let two = vec![fixture(1, "a.las"), fixture(1, "b.las")];
    let beyond = plan_subset(&two, 1, &vec![(0, 0), (1, 0)]);
    assert!(beyond.fault.expect("fault").message().contains("dir_idx 1 out of range for 1 inputs"));
    assert_eq!(beyond.copies.len(), 1);
}

#[test]
fn merged_manifests_name_all_sources() {
    let manifests = vec![fixture(1, "a.las"), fixture(1, "b.las")];
    let plan = plan_subset(&manifests, 2, &sort_refs(&vec![(1, 0), (0, 0)]));
    assert_eq!(plan.copies[0].dir_idx, 0);
    assert_eq!(plan.copies[0].dst_feat, "block_00000.feat");
    assert_eq!(plan.copies[1].dir_idx, 1);
    assert_eq!(plan.copies[1].dst_feat, "block_00001.feat");
    assert_eq!(plan.copies[1].src_feat, "block_00000.feat");
    let m = subset_manifest(&manifests, plan.blocks);
    assert!(m.source.contains("a.las") && m.source.contains("b.las"));
    assert_eq!(m.blocks[1].meta.id, 1);
}

#[test]
fn both_shares_are_shares_of_all_tiles() {
    let blocks = (0..10u64).map(|i| make_block(i, i as u32, &[(0, 10)])).collect();
    let manifest = dummy_manifest(blocks, 1);
    let s = split(&manifest, 0.5, 0.4, 0, false).unwrap();
    assert_eq!(s.val_ids, vec![0, 2, 4, 6, 8]);
    assert_eq!(s.test_ids, vec![1, 3, 5, 7]);
    assert_eq!(s.train_ids, vec![9]);
    // Validation takes the only tile, and nothing is left.
    let one = dummy_manifest(vec![make_block(7, 3, &[(0, 10)])], 1);
    let s = split(&one, 0.5, 0.4, 0, false).unwrap();
    assert_eq!((s.train_ids.len(), s.val_ids, s.test_ids.len()), (0, vec![7], 0));
}

#[test]
fn training_and_validation_always_get_a_directory() {
    let names = |split: &MultiThreeWaySplit| {
        subsets_to_write(split).iter().map(|s| s.name_text()).collect::<Vec<_>>()
    };
    let mut split = MultiThreeWaySplit { train: vec![(0, 1)], val: vec![], test: vec![] };
    assert_eq!(names(&split), vec!["train", "val"]);
    split.test.push((0, 2));
    split.train.clear();
    assert_eq!(names(&split), vec!["train", "val", "test"]);
}

#[test]
fn sources_go_only_after_both_copies() {
    let manifests = vec![fixture(2, "a.las")];
    let plan = plan_subset(&manifests, 1, &vec![(0, 0), (0, 1)]);
    let moved = file_steps(&plan, true);
    assert_eq!(
        moved,
        vec![
            FileStep::CopyFeatures { block: 0 },
            FileStep::CopyLabels { block: 0 },
            FileStep::RemoveFeatures { block: 0 },
            FileStep::RemoveLabels { block: 0 },
            FileStep::CopyFeatures { block: 1 },
            FileStep::CopyLabels { block: 1 },
            FileStep::RemoveFeatures { block: 1 },
            FileStep::RemoveLabels { block: 1 },
        ]
    );
    let copied = file_steps(&plan, false);
    assert_eq!(copied, vec![moved[0], moved[1], moved[4], moved[5]]);
}

#[test]
fn points_are_counted_as_far_as_they_fit() {
    let blocks = vec![make_block(0, 0, &[(0, 7), (1, 5), (9, 100)]), make_block(1, 1, &[(1, 3)])];
    let manifest = dummy_manifest(blocks, 2);
    assert_eq!(count_points(&[&manifest, &manifest], 2), Some(30));
    let blocks = vec![make_block(0, 0, &[(0, u64::MAX)]), make_block(1, 1, &[(1, 1)])];
    let LabeledBlockMeta { class_distribution: ref d, .. } = blocks[0];
    assert_eq!(d.get("0"), Some(u64::MAX));
    assert_eq!(count_points(&[&dummy_manifest(blocks, 2)], 2), None);
}
