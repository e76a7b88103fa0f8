//! Block manifests and the streaming preprocessing rules.

use vstd::prelude::*;

use crate::counting::{lemma_selects_step, selects};
use crate::error::ClassifierError;
use crate::ieee::Real64;
use crate::ordering::{law_sorted_by, lemma_place_by, place_by, sorted_by};
use crate::output::format_guard::{
    extension_is, has_extension, law_ending_is_the_extension, lower, lowered,
};
use crate::paths::{join_path, joined_path};
use crate::preprocessing::block_partitioner::BlockStub;
use crate::preprocessing::cell_index::{CellIndex, CellKey};
use crate::preprocessing::config::PreprocessConfig;
use crate::preprocessing::lite_point::{IndexedPoint, LitePoint};
use crate::text::texts;

verus! {

/// Per-block metadata entry in `blocks.json`.
#[derive(Debug)]
pub struct BlockMeta {
    pub id: u64,
    pub file: String,
    pub origin_x: Real64,
    pub origin_y: Real64,
    pub raw_point_count: usize,
    pub sampled_point_count: usize,
    pub oversampled: bool,
    /// Number of trailing rows in the `.feat` payload that are halo samples
    /// rather than core samples; 0 for an all-core block.
    pub n_halo: usize,
}

impl BlockMeta {
    /// Field for field the same, texts compared by their characters.
    pub open spec fn same(self, other: BlockMeta) -> bool {
        &&& self.id == other.id
        &&& self.file@ == other.file@
        &&& self.origin_x == other.origin_x
        &&& self.origin_y == other.origin_y
        &&& self.raw_point_count == other.raw_point_count
        &&& self.sampled_point_count == other.sampled_point_count
        &&& self.oversampled == other.oversampled
        &&& self.n_halo == other.n_halo
    }
}

impl Clone for BlockMeta {
    fn clone(&self) -> (r: Self)
        ensures
            r.same(*self),
    {
        BlockMeta {
            id: self.id,
            file: self.file.clone(),
            origin_x: self.origin_x,
            origin_y: self.origin_y,
            raw_point_count: self.raw_point_count,
            sampled_point_count: self.sampled_point_count,
            oversampled: self.oversampled,
            n_halo: self.n_halo,
        }
    }
}

/// Manifest emitted as `blocks.json` after a successful pipeline run.
#[derive(Debug)]
pub struct BlockManifest {
    pub source: String,
    pub block_size: Real64,
    pub target_points: usize,
    pub min_density: Real64,
    pub search_radius: Real64,
    pub min_neighbors: usize,
    pub crs_epsg: Option<u32>,
    /// Number of grid columns derived from the header's bounding box: the
    /// authoritative value for block IDs.
    pub grid_cols: u32,
    /// Number of grid rows derived from the header's bounding box.
    pub grid_rows: u32,
    /// South-west X origin of the grid.
    pub grid_x_min: Real64,
    /// South-west Y origin of the grid.
    pub grid_y_min: Real64,
    pub outlier_removal: bool,
    pub outlier_radius: Real64,
    pub outlier_elev_diff: Real64,
    pub outlier_use_median: bool,
    /// Overlap radius of border-point augmentation; zero where disabled.
    pub block_overlap: Real64,
    pub oversample_jitter: Real64,
    /// Whether `z` was normalised by each block's own range.
    pub z_norm_use_block_relative: bool,
    /// Fraction of rows reserved for halo samples; zero where disabled.
    pub halo_fraction: Real64,
    pub blocks: Vec<BlockMeta>,
}

/// The outcome of processing one block, with what the labeled pipeline needs.
#[derive(Debug)]
pub struct BlockProcessResult {
    pub meta: BlockMeta,
    /// For each core row the position of its point among the block's raw
    /// points.
    pub sampled_indices: Vec<usize>,
    /// The raw classification bytes of the halo rows.
    pub halo_classifications: Vec<u8>,
}

// ── Inputs and intermediates ────────────────────────────────────────────────

/// How the input file is read.
#[derive(Debug, Clone, Copy, PartialEq, Eq, Structural)]
pub enum InputFormat {
    Las,
    Laz,
    Copc,
}

/// The format that the extension of a path names, whatever the case of its
/// letters.
pub open spec fn format_of(path: Seq<char>) -> Option<InputFormat> {
    if has_extension(path, "las"@) {
        Some(InputFormat::Las)
    } else if has_extension(path, "laz"@) {
        Some(InputFormat::Laz)
    } else if has_extension(path, "copc"@) {
        Some(InputFormat::Copc)
    } else {
        None
    }
}

/// The format of an input file.
pub fn input_format(path: &str) -> (r: Result<InputFormat, ClassifierError>)
    ensures
        match r {
            Ok(f) => format_of(path@) == Some(f),
            Err(e) => format_of(path@) is None && (e matches ClassifierError::UnsupportedFormat {
                path: p,
            } && p@ == path@),
        },
{
    if extension_is(path, "las") {
        Ok(InputFormat::Las)
    } else if extension_is(path, "laz") {
        Ok(InputFormat::Laz)
    } else if extension_is(path, "copc") {
        Ok(InputFormat::Copc)
    } else {
        Err(ClassifierError::UnsupportedFormat { path: path.to_owned() })
    }
}

/// Where the ground elevation comes from.
#[derive(Debug)]
pub enum GroundSource {
    /// A raster that was given.
    External(String),
    /// A ground model generated from the input.
    Generated,
    /// The lowest point of each block.
    BlockMinimum,
}

/// The file with outliers removed.
pub open spec fn outlier_name() -> Seq<char> {
    "_outlier_cleaned.las"@
}

/// The intermediate file of ground points.
pub open spec fn ground_las_name() -> Seq<char> {
    "_auto_ground.las"@
}

/// The generated ground model.
pub open spec fn ground_tif_name() -> Seq<char> {
    "_auto_dtm.tif"@
}

impl PreprocessConfig {
    /// Where the ground elevation comes from: a raster that was given wins,
    /// then a generated one, then the lowest point of each block.
    pub fn ground_source(&self) -> (r: GroundSource)
        ensures
            match r {
                GroundSource::External(p) => self.hag_model matches Some(q) && p@ == q@,
                GroundSource::Generated => self.hag_model is None && self.auto_dtm,
                GroundSource::BlockMinimum => self.hag_model is None && !self.auto_dtm,
            },
    {
        match &self.hag_model {
            Some(p) => GroundSource::External(p.clone()),
            None => if self.auto_dtm {
                GroundSource::Generated
            } else {
                GroundSource::BlockMinimum
            },
        }
    }

    /// The file that is read: the input, or the file with its outliers
    /// removed.
    pub open spec fn read_from(self) -> Seq<char> {
        if self.outlier_removal {
            joined_path(self.output_dir@, outlier_name())
        } else {
            self.input@
        }
    }

    pub fn effective_input(&self) -> (r: String)
        ensures
            r@ == self.read_from(),
    {
        if self.outlier_removal {
            join_path(self.output_dir.as_str(), "_outlier_cleaned.las")
        } else {
            self.input.clone()
        }
    }

    /// The files under the output directory that are deleted after the run.
    pub open spec fn leftovers(self) -> Seq<Seq<char>> {
        (if self.outlier_removal {
            seq![outlier_name()]
        } else {
            Seq::empty()
        }) + (if self.hag_model is None && self.auto_dtm && !self.keep_auto_dtm {
            seq![ground_tif_name(), ground_las_name()]
        } else {
            Seq::empty()
        })
    }

    /// The files under the output directory to delete after the run.
    pub fn files_to_delete(&self) -> (r: Vec<String>)
        ensures
            texts(r@) == self.leftovers(),
    {
        let mut out: Vec<String> = Vec::new();
        if self.outlier_removal {
            out.push("_outlier_cleaned.las".to_owned());
        }
        if self.hag_model.is_none() && self.auto_dtm && !self.keep_auto_dtm {
            out.push("_auto_dtm.tif".to_owned());
            out.push("_auto_ground.las".to_owned());
        }
        assert(texts(out@) =~= self.leftovers());
        out
    }
}

// ── Density gate ────────────────────────────────────────────────────────────

/// How the caller computes the density of a block from its point count.
pub type DensityModel = spec_fn(u64) -> Real64;

/// `f` computes densities as `m` says.
pub open spec fn computes_density<D: Fn(u64) -> Real64>(f: D, m: DensityModel) -> bool {
    forall|n: u64, d: Real64| #[trigger] call_ensures(f, (n,), d) ==> d == m(n)
}

/// The positions among the first `n` blocks that are dense enough.
pub open spec fn dense(stubs: Seq<BlockStub>, m: DensityModel, min_density: Real64, n: int) -> Seq<
    usize,
>
    decreases n,
{
    if n <= 0 {
        Seq::empty()
    } else if min_density.at_most(m(stubs[n - 1].point_count)) {
        dense(stubs, m, min_density, n - 1).push((n - 1) as usize)
    } else {
        dense(stubs, m, min_density, n - 1)
    }
}

/// The positions of the blocks that are dense enough to be retained.
pub fn density_gate<D: Fn(u64) -> Real64>(
    stubs: &Vec<BlockStub>,
    density: D,
    min_density: Real64,
) -> (r: Vec<usize>)
    requires
        forall|n: u64| #[trigger] call_requires(density, (n,)),
    ensures
        forall|m: DensityModel| #[trigger]
            computes_density(density, m) ==> r@ == dense(
                stubs@,
                m,
                min_density,
                stubs@.len() as int,
            ),
{
    let mut out: Vec<usize> = Vec::new();
    let mut i: usize = 0;
    while i < stubs.len()
        invariant
            i <= stubs@.len(),
            forall|n: u64| #[trigger] call_requires(density, (n,)),
            forall|m: DensityModel| #[trigger]
                computes_density(density, m) ==> out@ == dense(
                    stubs@,
                    m,
                    min_density,
                    i as int,
                ),
        decreases stubs@.len() - i,
    {
        let d = density(stubs[i].point_count);
        if min_density.le(d) {
            out.push(i);
        }
        i = i + 1;
    }
    out
}

// ── Border points ───────────────────────────────────────────────────────────

/// The `k`-th of the nine cells around and including (`col`, `row`): columns
/// from west to east, in each of them rows from south to north.
pub open spec fn around(col: int, row: int, k: int) -> (int, int) {
    (col + k / 3 - 1, row + k % 3 - 1)
}

/// Whether a column or row number is one that cells have.
pub open spec fn is_cell_number(v: int) -> bool {
    i32::MIN <= v <= i32::MAX
}

/// The positions filed under the first `k` of the cells around (`col`, `row`),
/// that cell itself left out.
pub open spec fn neighbours(index: Map<CellKey, usize>, col: int, row: int, k: int) -> Seq<usize>
    decreases k,
{
    if k <= 0 {
        Seq::empty()
    } else {
        let (c, w) = around(col, row, k - 1);
        let before = neighbours(index, col, row, k - 1);
        if k - 1 != 4 && is_cell_number(c) && is_cell_number(w) && index.dom().contains(
            (c as i32, w as i32),
        ) {
            before.push(index[(c as i32, w as i32)])
        } else {
            before
        }
    }
}

/// The positions of the blocks around a cell.
pub fn neighbouring_blocks(index: &CellIndex, col: i32, row: i32) -> (r: Vec<usize>)
    ensures
        r@ == neighbours(index@, col as int, row as int, 9),
{
    let mut out: Vec<usize> = Vec::new();
    let mut k: i32 = 0;
    while k < 9
        invariant
            0 <= k <= 9,
            out@ == neighbours(index@, col as int, row as int, k as int),
        decreases 9 - k,
    {
        assert(around(col as int, row as int, k as int) == (col + (k / 3 - 1), row + (k % 3 - 1)));
        match (col.checked_add(k / 3 - 1), row.checked_add(k % 3 - 1)) {
            (Some(c), Some(w)) => {
                if k != 4 {
                    match index.get(c, w) {
                        Some(i) => {
                            out.push(i);
                        },
                        None => {},
                    }
                }
            },
            _ => {},
        }
        k = k + 1;
    }
    out
}

/// A box in the plane, its edges included.
#[derive(Debug, Clone, Copy, PartialEq, Eq, Structural)]
pub struct Extent {
    pub x_lo: Real64,
    pub x_hi: Real64,
    pub y_lo: Real64,
    pub y_hi: Real64,
}

impl Extent {
    pub open spec fn holds(self, p: LitePoint) -> bool {
        &&& self.x_lo.at_most(p.x)
        &&& p.x.at_most(self.x_hi)
        &&& self.y_lo.at_most(p.y)
        &&& p.y.at_most(self.y_hi)
    }

    pub fn contains(&self, p: &LitePoint) -> (r: bool)
        ensures
            r == self.holds(*p),
    {
        self.x_lo.le(p.x) && p.x.le(self.x_hi) && self.y_lo.le(p.y) && p.y.le(self.y_hi)
    }
}

/// The points within the box, in order.
pub open spec fn within(pts: Seq<IndexedPoint>, e: Extent) -> Seq<IndexedPoint> {
    pts.filter(|p: IndexedPoint| e.holds(p.1))
}

/// The points within the box of all parts, one part after the other.
pub open spec fn border_of(parts: Seq<Vec<IndexedPoint>>, e: Extent) -> Seq<IndexedPoint>
    decreases parts.len(),
{
    if parts.len() == 0 {
        Seq::empty()
    } else {
        border_of(parts.drop_last(), e) + within(parts.last()@, e)
    }
}

fn add_within(out: &mut Vec<IndexedPoint>, pts: &Vec<IndexedPoint>, e: &Extent)
    ensures
        final(out)@ == old(out)@ + within(pts@, *e),
{
    let ghost keep = |p: IndexedPoint| e.holds(p.1);
    let mut i: usize = 0;
    proof {
        assert(pts@.take(0).filter(keep) =~= Seq::empty()) by {
            reveal(Seq::filter);
        }
        assert(out@ =~= old(out)@ + pts@.take(0).filter(keep));
    }
    while i < pts.len()
        invariant
            i <= pts@.len(),
            keep == (|p: IndexedPoint| e.holds(p.1)),
            out@ == old(out)@ + pts@.take(i as int).filter(keep),
        decreases pts@.len() - i,
    {
        let p = pts[i];
        if e.contains(&p.1) {
            out.push(p);
        }
        proof {
            let t = pts@.take(i + 1);
            assert(t.drop_last() =~= pts@.take(i as int));
            assert(t.last() == p);
            reveal(Seq::filter);
            assert(out@ =~= old(out)@ + t.filter(keep));
        }
        i = i + 1;
    }
    assert(pts@.take(i as int) =~= pts@);
}

/// The border points of a block: the points of its neighbours, one neighbour
/// after the other, that lie in the block's extended box.
pub fn load_border_points(parts: &Vec<Vec<IndexedPoint>>, e: &Extent) -> (r: Vec<IndexedPoint>)
    ensures
        r@ == border_of(parts@, *e),
{
    let mut out: Vec<IndexedPoint> = Vec::new();
    let mut i: usize = 0;
    assert(parts@.take(0) =~= Seq::empty());
    while i < parts.len()
        invariant
            i <= parts@.len(),
            out@ == border_of(parts@.take(i as int), *e),
        decreases parts@.len() - i,
    {
        add_within(&mut out, &parts[i], e);
        proof {
            assert(parts@.take(i + 1).drop_last() =~= parts@.take(i as int));
            assert(parts@.take(i + 1).last() == parts@[i as int]);
        }
        i = i + 1;
    }
    assert(parts@.take(i as int) =~= parts@);
    out
}

// ── Results and manifest ────────────────────────────────────────────────────

/// Results are ordered by block ID.
pub open spec fn result_key() -> spec_fn(BlockProcessResult) -> int {
    |r: BlockProcessResult| r.meta.id as int
}

fn insert_result(v: &mut Vec<BlockProcessResult>, x: BlockProcessResult)
    ensures
        final(v)@ == old(v)@.insert(place_by(old(v)@, result_key(), x), x),
{
    let mut p: usize = v.len();
    assert(v@.take(p as int) =~= v@);
    while p > 0 && v[p - 1].meta.id > x.meta.id
        invariant
            p <= v@.len(),
            v@ == old(v)@,
            place_by(v@, result_key(), x) == place_by(v@.take(p as int), result_key(), x),
        decreases p,
    {
        assert(v@.take(p as int).drop_last() =~= v@.take(p - 1));
        assert(v@.take(p as int).last() == v@[p - 1]);
        p = p - 1;
    }
    proof {
        if p > 0 {
            assert(v@.take(p as int).last() == v@[p - 1]);
        }
        assert(place_by(v@, result_key(), x) == p);
        lemma_place_by(v@, result_key(), x);
    }
    v.insert(p, x);
}

/// The results in the order of their block IDs.
pub fn sort_results(results: Vec<BlockProcessResult>) -> (r: Vec<BlockProcessResult>)
    ensures
        r@ == sorted_by(results@, result_key()),
{
    let ghost all = results@;
    let mut rest = results;
    let mut back: Vec<BlockProcessResult> = Vec::new();
    while rest.len() > 0
        invariant
            rest@.len() + back@.len() == all.len(),
            rest@ == all.take(rest@.len() as int),
            forall|k: int|
                0 <= k < back@.len() ==> #[trigger] back@[k] == all[all.len() - 1 - k],
        decreases rest@.len(),
    {
        let ghost before = back@;
        let n: usize = rest.len();
        match rest.pop() {
            Some(x) => {
                assert(x == all[n - 1]);
                back.push(x);
            },
            None => {},
        }
        assert(rest@ =~= all.take(n - 1));
    }
    let mut out: Vec<BlockProcessResult> = Vec::new();
    assert(all.take(0) =~= Seq::empty());
    while back.len() > 0
        invariant
            back@.len() <= all.len(),
            forall|k: int|
                0 <= k < back@.len() ==> #[trigger] back@[k] == all[all.len() - 1 - k],
            out@ == sorted_by(all.take(all.len() - back@.len()), result_key()),
        decreases back@.len(),
    {
        let ghost done: int = all.len() - back@.len();
        match back.pop() {
            Some(x) => {
                proof {
                    assert(x == all[done]);
                    assert(all.take(done + 1).drop_last() =~= all.take(done));
                    assert(all.take(done + 1).last() == x);
                }
                insert_result(&mut out, x);
            },
            None => {},
        }
    }
    assert(all.take(all.len() as int) =~= all);
    out
}

/// The manifest entries of the results, in their order.
pub open spec fn metas_match(metas: Seq<BlockMeta>, results: Seq<BlockProcessResult>) -> bool {
    &&& metas.len() == results.len()
    &&& forall|i: int| 0 <= i < metas.len() ==> (#[trigger] metas[i]).same(results[i].meta)
}

fn copy_metas(results: &Vec<BlockProcessResult>) -> (r: Vec<BlockMeta>)
    ensures
        metas_match(r@, results@),
{
    let mut out: Vec<BlockMeta> = Vec::new();
    let mut i: usize = 0;
    while i < results.len()
        invariant
            i <= results@.len(),
            out@.len() == i,
            forall|k: int| 0 <= k < i ==> (#[trigger] out@[k]).same(results@[k].meta),
        decreases results@.len() - i,
    {
        out.push(results[i].meta.clone());
        i = i + 1;
    }
    out
}

/// The geometry of the block grid, from the header of the input.
#[derive(Debug, Clone, Copy, PartialEq, Eq, Structural)]
pub struct HeaderGrid {
    pub grid_cols: u32,
    pub grid_rows: u32,
    pub x_min: Real64,
    pub y_min: Real64,
    pub crs_epsg: Option<u32>,
}

/// The manifest of a run. Its source is the input that was asked for, never an
/// intermediate file.
pub fn build_manifest(
    config: &PreprocessConfig,
    grid: &HeaderGrid,
    results: &Vec<BlockProcessResult>,
) -> (r: BlockManifest)
    ensures
        r.source@ == config.input@,
        r.block_size == config.block_size,
        r.target_points == config.target_points,
        r.min_density == config.min_density,
        r.search_radius == config.search_radius,
        r.min_neighbors == config.min_neighbors,
        r.crs_epsg == grid.crs_epsg,
        r.grid_cols == grid.grid_cols,
        r.grid_rows == grid.grid_rows,
        r.grid_x_min == grid.x_min,
        r.grid_y_min == grid.y_min,
        r.outlier_removal == config.outlier_removal,
        r.outlier_radius == config.outlier_radius,
        r.outlier_elev_diff == config.outlier_elev_diff,
        r.outlier_use_median == config.outlier_use_median,
        r.block_overlap == config.block_overlap,
        r.oversample_jitter == config.oversample_jitter,
        r.z_norm_use_block_relative == config.z_norm_use_block_relative,
        r.halo_fraction == config.halo_fraction,
        metas_match(r.blocks@, results@),
{
    BlockManifest {
        source: config.input.clone(),
        block_size: config.block_size,
        target_points: config.target_points,
        min_density: config.min_density,
        search_radius: config.search_radius,
        min_neighbors: config.min_neighbors,
        crs_epsg: grid.crs_epsg,
        grid_cols: grid.grid_cols,
        grid_rows: grid.grid_rows,
        grid_x_min: grid.x_min,
        grid_y_min: grid.y_min,
        outlier_removal: config.outlier_removal,
        outlier_radius: config.outlier_radius,
        outlier_elev_diff: config.outlier_elev_diff,
        outlier_use_median: config.outlier_use_median,
        block_overlap: config.block_overlap,
        oversample_jitter: config.oversample_jitter,
        z_norm_use_block_relative: config.z_norm_use_block_relative,
        halo_fraction: config.halo_fraction,
        blocks: copy_metas(results),
    }
}

// ── What is kept and what is left out ───────────────────────────────────────

/// The blocks that are kept are exactly those at least as dense as asked
/// for, in their order.
pub proof fn law_dense_blocks_pass(
    stubs: Seq<BlockStub>,
    m: DensityModel,
    min_density: Real64,
    n: int,
)
    requires
        0 <= n <= stubs.len() <= usize::MAX,
    ensures
        selects(
            dense(stubs, m, min_density, n).map_values(|i: usize| i as int),
            |i: int| min_density.at_most(m(stubs[i].point_count)),
            n,
        ),
    decreases n,
{
    let p = |i: int| min_density.at_most(m(stubs[i].point_count));
    let r = dense(stubs, m, min_density, n).map_values(|i: usize| i as int);
    if n > 0 {
        law_dense_blocks_pass(stubs, m, min_density, n - 1);
        let before = dense(stubs, m, min_density, n - 1).map_values(|i: usize| i as int);
        lemma_selects_step(before, p, n - 1);
        if p(n - 1) {
            assert(r =~= before.push(n - 1));
        } else {
            assert(r =~= before);
        }
    } else {
        assert(r =~= Seq::<int>::empty());
    }
}

/// The neighbours of a cell are exactly the blocks in the cells at most one
/// column and one row away, but for the cell itself; there are at most eight.
pub proof fn law_neighbours_touch_the_cell(index: Map<CellKey, usize>, col: i32, row: i32)
    ensures
        neighbours(index, col as int, row as int, 9).len() <= 8,
        forall|c: i32, w: i32|
            -1 <= c - col <= 1 && -1 <= w - row <= 1 && (c != col || w != row)
                && #[trigger] index.dom().contains((c, w)) ==> neighbours(
                index,
                col as int,
                row as int,
                9,
            ).contains(index[(c, w)]),
        forall|j: int|
            0 <= j < neighbours(index, col as int, row as int, 9).len() ==> exists|c: i32, w: i32|
                -1 <= c - col <= 1 && -1 <= w - row <= 1 && (c != col || w != row)
                    && #[trigger] index.dom().contains((c, w)) && index[(c, w)]
                    == #[trigger] neighbours(index, col as int, row as int, 9)[j],
{
    lemma_neighbours(index, col as int, row as int, 9);
    assert forall|c: i32, w: i32|
        -1 <= c - col <= 1 && -1 <= w - row <= 1 && (c != col || w != row)
            && #[trigger] index.dom().contains((c, w)) implies neighbours(
        index,
        col as int,
        row as int,
        9,
    ).contains(index[(c, w)]) by {
        let k = 3 * (c - col + 1) + (w - row + 1);
        assert(k / 3 == c - col + 1 && k % 3 == w - row + 1);
        assert(around(col as int, row as int, k) == (c as int, w as int));
    }
    assert forall|j: int|
        0 <= j < neighbours(index, col as int, row as int, 9).len() implies exists|
        c: i32,
        w: i32,
    |
        -1 <= c - col <= 1 && -1 <= w - row <= 1 && (c != col || w != row)
            && #[trigger] index.dom().contains((c, w)) && index[(c, w)] == #[trigger] neighbours(
            index,
            col as int,
            row as int,
            9,
        )[j] by {
        let k = choose|k: int|
            0 <= k < 9 && k != 4 && {
                let (c, w) = #[trigger] around(col as int, row as int, k);
                is_cell_number(c) && is_cell_number(w) && index.dom().contains(
                    (c as i32, w as i32),
                ) && index[(c as i32, w as i32)] == neighbours(index, col as int, row as int, 9)[j]
            };
        let (c, w) = around(col as int, row as int, k);
        assert(index.dom().contains((c as i32, w as i32)));
        assert(k / 3 == 1 && k % 3 == 1 ==> k == 4);
    }
}

proof fn lemma_neighbours(index: Map<CellKey, usize>, col: int, row: int, k: int)
    requires
        0 <= k <= 9,
    ensures
        neighbours(index, col, row, k).len() <= k,
        k > 4 ==> neighbours(index, col, row, k).len() < k,
        forall|i: int|
            0 <= i < k && i != 4 ==> {
                let (c, w) = #[trigger] around(col, row, i);
                is_cell_number(c) && is_cell_number(w) && index.dom().contains((c as i32, w as i32))
                    ==> neighbours(index, col, row, k).contains(index[(c as i32, w as i32)])
            },
        forall|j: int|
            0 <= j < neighbours(index, col, row, k).len() ==> exists|i: int|
                0 <= i < k && i != 4 && {
                    let (c, w) = #[trigger] around(col, row, i);
                    is_cell_number(c) && is_cell_number(w) && index.dom().contains(
                        (c as i32, w as i32),
                    ) && index[(c as i32, w as i32)] == #[trigger] neighbours(index, col, row, k)[j]
                },
    decreases k,
{
    if k > 0 {
        lemma_neighbours(index, col, row, k - 1);
        let before = neighbours(index, col, row, k - 1);
        let all = neighbours(index, col, row, k);
        let (c, w) = around(col, row, k - 1);
        assert forall|x: usize| before.contains(x) implies #[trigger] all.contains(x) by {
            let i = before.index_of(x);
            assert(all[i] == x);
        }
        if all.len() > before.len() {
            assert(all[before.len() as int] == index[(c as i32, w as i32)]);
        }
        assert forall|j: int| 0 <= j < all.len() implies exists|i: int|
            0 <= i < k && i != 4 && {
                let (c, w) = #[trigger] around(col, row, i);
                is_cell_number(c) && is_cell_number(w) && index.dom().contains((c as i32, w as i32))
                    && index[(c as i32, w as i32)] == #[trigger] all[j]
            } by {
            if j < before.len() {
                let i = choose|i: int|
                    0 <= i < k - 1 && i != 4 && {
                        let (c, w) = #[trigger] around(col, row, i);
                        is_cell_number(c) && is_cell_number(w) && index.dom().contains(
                            (c as i32, w as i32),
                        ) && index[(c as i32, w as i32)] == before[j]
                    };
                assert(around(col, row, i) == around(col, row, i));
                assert(all[j] == before[j]);
            } else {
                assert(around(col, row, k - 1) == (c, w));
            }
        }
    }
}

/// A border holds exactly the points of the neighbouring blocks that lie between
/// the extent's edges, the edges included.
pub proof fn law_border_lies_in_the_extent(
    parts: Seq<Vec<IndexedPoint>>,
    e: Extent,
    p: IndexedPoint,
)
    ensures
        border_of(parts, e).contains(p) <==> {
            &&& exists|i: int| 0 <= i < parts.len() && (#[trigger] parts[i])@.contains(p)
            &&& e.x_lo.at_most(p.1.x)
            &&& p.1.x.at_most(e.x_hi)
            &&& e.y_lo.at_most(p.1.y)
            &&& p.1.y.at_most(e.y_hi)
        },
    decreases parts.len(),
{
    let all = border_of(parts, e);
    if parts.len() > 0 {
        let rest = parts.drop_last();
        let before = border_of(rest, e);
        let last = within(parts.last()@, e);
        law_border_lies_in_the_extent(rest, e, p);
        lemma_within(parts.last()@, e, p);
        assert(all.contains(p) <==> before.contains(p) || last.contains(p)) by {
            if all.contains(p) {
                let i = all.index_of(p);
                if i < before.len() {
                    assert(before[i] == p);
                } else {
                    assert(last[i - before.len()] == p);
                }
            }
            if before.contains(p) {
                assert(all[before.index_of(p)] == p);
            }
            if last.contains(p) {
                assert(all[before.len() as int + last.index_of(p)] == p);
            }
        }
        if exists|i: int| 0 <= i < parts.len() && (#[trigger] parts[i])@.contains(p) {
            let i = choose|i: int| 0 <= i < parts.len() && (#[trigger] parts[i])@.contains(p);
            if i < rest.len() {
                assert(rest[i]@.contains(p));
            }
        }
        if exists|i: int| 0 <= i < rest.len() && (#[trigger] rest[i])@.contains(p) {
            let i = choose|i: int| 0 <= i < rest.len() && (#[trigger] rest[i])@.contains(p);
            assert(parts[i]@.contains(p));
        }
        if parts.last()@.contains(p) {
            assert(parts[parts.len() - 1]@.contains(p));
        }
    }
}

proof fn lemma_within(pts: Seq<IndexedPoint>, e: Extent, p: IndexedPoint)
    ensures
        within(pts, e).contains(p) <==> pts.contains(p) && e.holds(p.1),
    decreases pts.len(),
{
    reveal(Seq::filter);
    if pts.len() > 0 {
        let rest = pts.drop_last();
        lemma_within(rest, e, p);
        let before = within(rest, e);
        let all = within(pts, e);
        if all.contains(p) {
            let i = all.index_of(p);
            if i < before.len() {
                assert(before[i] == p);
                assert(pts[rest.index_of(p)] == p);
            } else {
                assert(pts[pts.len() - 1] == p);
            }
        }
        if pts.contains(p) && e.holds(p.1) {
            let i = pts.index_of(p);
            if i < rest.len() {
                assert(rest[i] == p);
                assert(all[before.index_of(p)] == p);
            } else {
                assert(all[before.len() as int] == p);
            }
        }
    }
}

/// The cleaned input is deleted where outliers were removed; the generated
/// ground files where one was generated and is not to be kept; nothing else is.
pub proof fn law_only_own_files_are_deleted(c: PreprocessConfig, name: Seq<char>)
    ensures
        c.leftovers().contains(name) <==> {
            ||| c.outlier_removal && name == "_outlier_cleaned.las"@
            ||| c.hag_model is None && c.auto_dtm && !c.keep_auto_dtm && (name == "_auto_dtm.tif"@
                || name == "_auto_ground.las"@)
        },
{
    let s = c.leftovers();
    if c.outlier_removal {
        assert(s[0] == "_outlier_cleaned.las"@);
    }
    if c.hag_model is None && c.auto_dtm && !c.keep_auto_dtm {
        let k: int = if c.outlier_removal {
            1
        } else {
            0
        };
        assert(s[k] == "_auto_dtm.tif"@ && s[k + 1] == "_auto_ground.las"@);
    }
}

/// Results are put in the order of their blocks' numbers; none is lost.
pub proof fn law_results_ascend(results: Seq<BlockProcessResult>, i: int, j: int)
    requires
        0 <= i < j < results.len(),
    ensures
        ({
            let r = sorted_by(results, result_key());
            &&& r.len() == results.len()
            &&& r.to_multiset() == results.to_multiset()
            &&& r[i].meta.id <= r[j].meta.id
        }),
{
    broadcast use vstd::seq_lib::group_to_multiset_ensures;

    let r = sorted_by(results, result_key());
    law_sorted_by(results, result_key());
    assert(r.len() == results.len()) by {
        assert(r.to_multiset().len() == results.to_multiset().len());
    }
    assert(result_key()(r[i]) <= result_key()(r[j]));
}

/// A path of a stem and a known ending, in whatever case, has the format of that
/// ending; any other ending has none.
pub proof fn law_format_follows_the_ending(stem: Seq<char>, ending: Seq<char>)
    requires
        stem.len() > 0,
        stem.last() != '/',
        stem.last() != '.',
        ending.len() > 0,
        forall|i: int| 0 <= i < ending.len() ==> #[trigger] ending[i] != '/' && ending[i] != '.',
    ensures
        ({
            let f = format_of(stem.push('.') + ending);
            let low = ending.map_values(|c: char| lower(c));
            &&& low == "las"@ ==> f == Some(InputFormat::Las)
            &&& low == "laz"@ ==> f == Some(InputFormat::Laz)
            &&& low == "copc"@ ==> f == Some(InputFormat::Copc)
            &&& low != "las"@ && low != "laz"@ && low != "copc"@ ==> f is None
        }),
{
    reveal_strlit("las");
    reveal_strlit("laz");
    reveal_strlit("copc");
    assert("las"@[2] != "laz"@[2]);
    assert("copc"@.len() == 4);
    law_ending_is_the_extension(stem, ending, "las"@);
    assert(lowered(ending) =~= ending.map_values(|c: char| lower(c)));
}

/// Points are read from the cleaned file in the output directory where outliers
/// were removed, else from the input.
pub proof fn law_cleaned_input_is_read(c: PreprocessConfig)
    ensures
        !c.outlier_removal ==> c.read_from() == c.input@,
        c.outlier_removal ==> c.read_from() == joined_path(
            c.output_dir@,
            "_outlier_cleaned.las"@,
        ) && c.leftovers().contains("_outlier_cleaned.las"@),
{
    if c.outlier_removal {
        law_only_own_files_are_deleted(c, "_outlier_cleaned.las"@);
    }
}

} // verus!
