use lidar_point_cloud_classifier::error::ClassifierError;
use lidar_point_cloud_classifier::ieee::Real64;
use lidar_point_cloud_classifier::preprocessing::block_partitioner::{
    BlockPartitioner, SpillFile,
};
use lidar_point_cloud_classifier::preprocessing::eigen_prepass::{
    compute_n_strips, plan_prepass, read_eigen_file, route_point_to_strips, stitch_strip,
    strip_ranges, EigenRow, PrepassPlan,
};
use lidar_point_cloud_classifier::preprocessing::feat_file::{
    read_feat_file, read_feat_header, write_feat_file,
};
use lidar_point_cloud_classifier::preprocessing::lite_point::{
    read_spill_file, write_spill_file, LitePoint, PT_BYTES,
};
use lidar_point_cloud_classifier::preprocessing::{
    block_id, n_features_for_radii, SPILL_HIGH_WATER_BYTES,
};

fn num(x: f64) -> Real64 {
    Real64 { bits: x.to_bits() }
}

fn val(r: Real64) -> f64 {
    f64::from_bits(r.bits)
}

fn point(x: f64, y: f64, z: f64) -> LitePoint {
    LitePoint { x: num(x), y: num(y), z: num(z), ..LitePoint::default() }
}

fn eigen_row(values: [f32; 10]) -> EigenRow {
    let b = values.map(f32::to_bits);
    EigenRow {
        lambda1: b[0],
        lambda2: b[1],
        lambda3: b[2],
        linearity: b[3],
        planarity: b[4],
        sphericity: b[5],
        omnivariance: b[6],
        eigentropy: b[7],
        slope: b[8],
        residual: b[9],
    }
}

// ── Blocks ──────────────────────────────────────────────────────────────────

#[test]
fn test_partitioner_assigns_cells_correctly() {
    let mut p = BlockPartitioner::new(2);
    for (i, (x, y)) in [(25.0, 25.0), (75.0, 25.0), (25.0, 75.0), (75.0, 75.0)].iter().enumerate()
    {
        let cell = |v: f64| ((v / 50.0).floor() as i32).clamp(0, 1);
        let spilled = p.add_point(cell(*x), cell(*y), i as u64, point(*x, *y, 0.0));
        assert!(spilled.is_empty());
    }
    let mut blocks = p.finalize(&Vec::new());
    blocks.sort_by_key(|b| (b.col, b.row));
    assert_eq!(blocks.len(), 4);
    assert_eq!((blocks[0].col, blocks[0].row), (0, 0));
    assert_eq!((blocks[1].col, blocks[1].row), (0, 1));
    assert_eq!((blocks[2].col, blocks[2].row), (1, 0));
    assert_eq!((blocks[3].col, blocks[3].row), (1, 1));
    for b in &blocks {
        assert_eq!(b.points.len(), 1);
    }
    assert_eq!(blocks[3].id, 3);
}

#[test]
fn test_spill_merge_produces_same_result() {
    let n = 200usize;
    let pts: Vec<(u64, LitePoint)> =
        (0..n).map(|i| (i as u64, point(10.0 + i as f64 * 0.1, 10.0, i as f64))).collect();
    let mut p_mem = BlockPartitioner::new(2);
    for &(i, pt) in &pts {
        p_mem.add_point(0, 0, i, pt);
    }
    let mem_blocks = p_mem.finalize(&Vec::new());

    let recovered = read_spill_file("test.spill", &write_spill_file(&pts)).unwrap();
    assert_eq!(recovered.len(), pts.len());
    for (a, b) in pts.iter().zip(recovered.iter()) {
        assert!((val(a.1.x) - val(b.1.x)).abs() < 1e-12);
        assert!((val(a.1.z) - val(b.1.z)).abs() < 1e-12);
    }

    assert_eq!(mem_blocks.len(), 1);
    assert_eq!(mem_blocks[0].points.len(), n);
    assert!(SPILL_HIGH_WATER_BYTES > 0);
}

#[test]
fn spill_files_and_memory_merge_in_stream_order() {
    let mut p = BlockPartitioner::new(3);
    p.add_point(1, 0, 8, point(3.0, 0.0, 0.0));
    let earlier = SpillFile {
        col: 1,
        row: 0,
        name: "block_00001_0000.spill".to_string(),
        points: vec![(5, point(1.0, 0.0, 0.0)), (6, point(2.0, 0.0, 0.0))],
    };
    let blocks = p.finalize(&vec![earlier]);
    assert_eq!(blocks.len(), 1);
    assert_eq!(blocks[0].point_indices, vec![5, 6, 8]);
    assert_eq!(blocks[0].points[2].x, num(3.0));
}

#[test]
fn stubs_give_back_their_points() {
    let mut p = BlockPartitioner::new(2);
    for i in 0..5u64 {
        p.add_point((i % 2) as i32, 0, i, point(i as f64, 0.0, 0.0));
    }
    let (files, stubs) = p.finalize_stubs();
    assert_eq!(stubs.len(), 2);
    for s in &stubs {
        let parts: Vec<Vec<(u64, LitePoint)>> = files
            .iter()
            .filter(|f| (f.col, f.row) == (s.col, s.row))
            .map(|f| read_spill_file("s", &write_spill_file(&f.points)).unwrap())
            .collect();
        assert_eq!(s.files as usize, parts.len());
        let block = s.load(&parts);
        assert_eq!(block.points.len() as u64, s.point_count);
        let expected: Vec<u64> = (0..5).filter(|i| (i % 2) as i32 == s.col).collect();
        assert_eq!(block.point_indices, expected);
        assert_eq!(block.id, s.id);
    }
}

#[test]
fn block_ids_count_cells_by_rows() {
    assert_eq!(block_id(2, 3, 10), 23);
    assert_eq!(block_id(0, 0, 10), 0);
}

// ── Spill files ─────────────────────────────────────────────────────────────

#[test]
fn test_border_spill_round_trip() {
    let pts: Vec<(u64, LitePoint)> = (0..20u64)
        .map(|i| {
            (
                i,
                LitePoint {
                    x: num(i as f64 * 1.5),
                    y: num(i as f64 * 0.7),
                    z: num(i as f64 * 0.3),
                    intensity: (i * 1000) as u16,
                    classification: (i % 8) as u8,
                    return_number: 1,
                    number_of_returns: 2,
                    scan_angle: (i as i16) - 10,
                },
            )
        })
        .collect();
    let recovered = read_spill_file("test.border", &write_spill_file(&pts)).unwrap();
    assert_eq!(recovered.len(), pts.len(), "point count must match");
    for ((idx_a, a), (idx_b, b)) in pts.iter().zip(recovered.iter()) {
        assert_eq!(idx_a, idx_b, "original index must survive round trip");
        assert!((val(a.x) - val(b.x)).abs() < 1e-12, "x mismatch");
        assert!((val(a.y) - val(b.y)).abs() < 1e-12, "y mismatch");
        assert!((val(a.z) - val(b.z)).abs() < 1e-12, "z mismatch");
        assert_eq!(a.intensity, b.intensity, "intensity mismatch");
        assert_eq!(a.classification, b.classification, "classification mismatch");
        assert_eq!(a.return_number, b.return_number, "return_number mismatch");
        assert_eq!(a.number_of_returns, b.number_of_returns, "number_of_returns mismatch");
        assert_eq!(a.scan_angle, b.scan_angle, "scan_angle mismatch");
    }
}

#[test]
fn test_border_spill_empty() {
    let recovered = read_spill_file("empty.border", &write_spill_file(&Vec::new())).unwrap();
    assert!(recovered.is_empty(), "empty write, empty read");
}

#[test]
fn spill_records_have_a_fixed_layout() {
    let p = LitePoint {
        x: num(1.0),
        y: num(2.0),
        z: num(3.0),
        intensity: 0x0102,
        return_number: 4,
        number_of_returns: 5,
        scan_angle: -2,
        classification: 9,
    };
    let bytes = write_spill_file(&vec![(7, p)]);
    assert_eq!(bytes.len(), PT_BYTES);
    let mut expected: Vec<u8> = Vec::new();
    expected.extend_from_slice(&7u64.to_le_bytes());
    expected.extend_from_slice(&1.0f64.to_le_bytes());
    expected.extend_from_slice(&2.0f64.to_le_bytes());
    expected.extend_from_slice(&3.0f64.to_le_bytes());
    expected.extend_from_slice(&0x0102u16.to_le_bytes());
    expected.extend_from_slice(&[9, 4, 5]);
    expected.extend_from_slice(&(-2i16).to_le_bytes());
    assert_eq!(bytes, expected);
}

#[test]
fn torn_spill_files_are_refused() {
    let mut bytes = write_spill_file(&vec![(1, LitePoint::default())]);
    bytes.pop();
    match read_spill_file("dir/torn.spill", &bytes) {
        Err(ClassifierError::SpillCorrupt { path }) => assert_eq!(path, "dir/torn.spill"),
        _ => panic!("a torn record must be refused"),
    }
}

// ── Eigenvalue tables ───────────────────────────────────────────────────────

#[test]
fn test_read_eigen_file_round_trip() {
    let rows: Vec<[f32; 10]> = (0..5)
        .map(|i: usize| {
            let mut r = [0.0f32; 10];
            for (j, v) in r.iter_mut().enumerate() {
                *v = (i * 10 + j) as f32 * 0.1;
            }
            r
        })
        .collect();
    let mut bytes: Vec<u8> = Vec::new();
    for (point_num, row) in rows.iter().enumerate() {
        bytes.extend_from_slice(&(point_num as u64).to_le_bytes());
        for v in row {
            bytes.extend_from_slice(&v.to_le_bytes());
        }
    }
    let table = read_eigen_file("test.eigen", &bytes).unwrap();
    assert_eq!(table.len(), 5);
    for (a, b) in rows.iter().zip(table.iter()) {
        for (x, y) in a.iter().zip(b.to_values().iter()) {
            assert!((x - f32::from_bits(*y)).abs() < 1e-6);
        }
    }
}

#[test]
fn torn_eigen_files_are_refused() {
    assert!(read_eigen_file("t.eigen", &vec![0u8; 47]).is_err());
    assert!(read_eigen_file("t.eigen", &Vec::new()).unwrap().is_empty());
}

#[test]
fn test_compute_n_strips_ceils_and_clamps_to_two() {
    assert_eq!(compute_n_strips(100, 40), 3);
    assert_eq!(compute_n_strips(81, 40), 3);
    assert_eq!(compute_n_strips(41, 40), 2);
    assert_eq!(compute_n_strips(80, 40), 2);
    assert_eq!(compute_n_strips(0, 40), 2);
}

#[test]
fn test_run_eigenvalue_prepass_dispatches_to_split_when_over_budget() {
    let size = std::mem::size_of::<wblidar::PointRecord>();
    let estimated = size * 40;
    let budget = estimated / 2 + 1;
    assert!(matches!(plan_prepass(40, size, budget), PrepassPlan::Split { n_strips: 2 }));
    assert!(matches!(plan_prepass(40, size, estimated), PrepassPlan::Whole));
}

#[test]
fn test_run_eigenvalue_prepass_split_produces_full_length_table() {
    let xs: Vec<f64> = (0..60).map(f64::from).collect();
    let width = 59.0 / 3.0;
    let edges: Vec<Real64> =
        (0..=3).map(|i| num(if i == 3 { 59.0 } else { i as f64 * width })).collect();
    let reach: Vec<(Real64, Real64)> =
        (0..3).map(|i| (num(val(edges[i]) - 5.0), num(val(edges[i + 1]) + 5.0))).collect();
    let strips = strip_ranges(&edges, &reach);
    let mut tags: Vec<Vec<(u64, bool)>> = vec![Vec::new(); 3];
    let mut written: Vec<Vec<f64>> = vec![Vec::new(); 3];
    for (i, x) in xs.iter().enumerate() {
        let to = route_point_to_strips(num(*x), i as u64, &strips, &mut tags);
        assert!(!to.is_empty());
        for s in to {
            written[s].push(*x);
        }
    }
    let mut table = vec![EigenRow::zero(); xs.len()];
    for s in 0..3 {
        assert_eq!(tags[s].len(), written[s].len());
        let rows: Vec<EigenRow> =
            written[s].iter().map(|x| eigen_row([*x as f32 + 1.0; 10])).collect();
        stitch_strip(&mut table, &tags[s], &rows);
    }
    assert_eq!(table.len(), xs.len());
    for (x, row) in xs.iter().zip(table.iter()) {
        assert_eq!(f32::from_bits(row.slope), *x as f32 + 1.0);
    }
}

// ── Feature files ───────────────────────────────────────────────────────────

fn feat() -> Vec<u8> {
    let rows = vec![(0..17).collect(), (17..34).collect()];
    write_feat_file(9, 2, 17, 1, num(10.5), num(-4.0), &rows)
}

#[test]
fn feature_files_round_trip() {
    let (h, values) = read_feat_file("b.feat", &feat()).unwrap();
    assert_eq!((h.n_points, h.n_features, h.n_halo), (2, 17, 1));
    assert_eq!((h.origin_x, h.origin_y), (num(10.5), num(-4.0)));
    assert_eq!(values, (0..34).collect::<Vec<u32>>());
}

#[test]
fn old_feature_files_have_no_halo() {
    let new = feat();
    let start = read_feat_header("b.feat", &new).unwrap().data_start;
    let mut old = new.clone();
    old[4] = 1;
    old.drain(start - 4..start);
    let (h, values) = read_feat_file("b.feat", &old).unwrap();
    assert_eq!(h.n_halo, 0);
    assert_eq!(values, (0..34).collect::<Vec<u32>>());
}

#[test]
fn broken_feature_files_are_refused() {
    let good = feat();
    let mut magic = good.clone();
    magic[0] = b'X';
    assert!(read_feat_header("b.feat", &magic).is_err());
    let mut version = good.clone();
    version[4] = 9;
    assert!(read_feat_header("b.feat", &version).is_err());
    let narrow = write_feat_file(9, 1, 3, 0, num(0.0), num(0.0), &vec![vec![1, 2, 3]]);
    let e = read_feat_header("b.feat", &narrow).err().expect("fault");
    assert!(e.message().contains("n_features=3 does not match"));
    let mut short = good.clone();
    short.pop();
    assert!(read_feat_file("b.feat", &short).is_err());
    assert!(read_feat_header("b.feat", &good[..10].to_vec()).is_err());
}

#[test]
fn feature_counts_grow_with_the_radii() {
    assert_eq!(n_features_for_radii(1), 12);
    assert_eq!(n_features_for_radii(3), 22);
}
