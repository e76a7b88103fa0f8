//! What one block contributes: its rows, its files and its manifest entry.

use rand::rngs::SmallRng;
use vstd::prelude::*;

use crate::ieee::Real64;
use crate::preprocessing::block_partitioner::Block;
use crate::preprocessing::eigen_prepass::EigenRow;
use crate::preprocessing::lite_point::{IndexedPoint, LitePoint};
use crate::preprocessing::normalizer::{
    generates, is_halo_sample, is_sample, law_halo_is_of_the_border, law_same_seed_same_halo,
    law_same_seed_same_sample, law_sample_is_of_the_block, moves, resample_block, sample_halo,
    SamplingModel,
};
use crate::preprocessing::pipeline::{BlockMeta, BlockProcessResult};
use crate::text::{
    concat3, decimal5, decimal5_text, law_decimal5_reads_back, separated, unsigned_value,
};

verus! {

/// The eigenvalue row of the point with this stream index; zeros where the
/// table has none.
pub open spec fn row_of(table: Seq<EigenRow>, index: u64) -> EigenRow {
    if index < table.len() {
        table[index as int]
    } else {
        EigenRow::zeros()
    }
}

/// The eigenvalue row of the point with this stream index.
pub fn look_up_row(table: &Vec<EigenRow>, index: u64) -> (r: EigenRow)
    ensures
        r == row_of(table@, index),
{
    if index < table.len() as u64 {
        table[index as usize]
    } else {
        EigenRow::zero()
    }
}

/// The rows sampled for a block: core rows first, then halo rows.
pub struct SampledRows {
    pub points: Vec<LitePoint>,
    /// The eigenvalue row of each point.
    pub eigen_rows: Vec<EigenRow>,
    /// The position in the block of each core row.
    pub sampled_indices: Vec<usize>,
    /// Whether core points were repeated to make up the number.
    pub oversampled: bool,
    /// The points of the halo rows, with their stream indices.
    pub halo: Vec<IndexedPoint>,
}

/// The points without their indices.
pub open spec fn bare_points(pts: Seq<IndexedPoint>) -> Seq<LitePoint> {
    pts.map_values(|p: IndexedPoint| p.1)
}

/// The eigenvalue rows of core points, found through their positions in the
/// block.
pub open spec fn core_eigen(
    table: Seq<EigenRow>,
    indices: Seq<u64>,
    positions: Seq<usize>,
) -> Seq<EigenRow> {
    positions.map_values(|p: usize| row_of(table, indices[p as int]))
}

/// The eigenvalue rows of halo points.
pub open spec fn halo_eigen(table: Seq<EigenRow>, pts: Seq<IndexedPoint>) -> Seq<EigenRow> {
    pts.map_values(|p: IndexedPoint| row_of(table, p.0))
}

/// How many core rows there are, next to `n_halo` halo rows.
pub open spec fn core_target(target: nat, n_halo: nat) -> nat {
    if n_halo <= target {
        (target - n_halo) as nat
    } else {
        0
    }
}

impl SampledRows {
    /// What holds of the rows sampled from `block` and its border, whatever
    /// was drawn. Both samples are seeded by the block ID.
    pub open spec fn drawn_from<
        G: Fn(SmallRng, Real64) -> (SmallRng, Real64),
        A: Fn(Real64, Real64) -> Real64,
    >(
        self,
        block: Block,
        border: Seq<IndexedPoint>,
        table: Seq<EigenRow>,
        target: nat,
        n_halo_target: nat,
        jitter_sigma: Real64,
        gauss: G,
        shift: A,
    ) -> bool {
        &&& is_halo_sample(border, n_halo_target, block.id, self.halo@)
        &&& self.points@.len() == self.sampled_indices@.len() + self.halo@.len()
        &&& is_sample(
            block.points@,
            core_target(target, self.halo@.len()),
            block.id,
            jitter_sigma,
            gauss,
            shift,
            self.points@.take(self.sampled_indices@.len() as int),
            self.sampled_indices@,
            self.oversampled,
        )
        &&& self.points@.skip(self.sampled_indices@.len() as int) == bare_points(self.halo@)
        &&& self.eigen_rows@ == core_eigen(
            table,
            block.point_indices@,
            self.sampled_indices@,
        ) + halo_eigen(table, self.halo@)
    }
}

/// The rows of every block that has points are as many as asked for: halo
/// points that are missing are made up by core points.
pub proof fn law_rows_are_full<
    G: Fn(SmallRng, Real64) -> (SmallRng, Real64),
    A: Fn(Real64, Real64) -> Real64,
>(
    rows: SampledRows,
    block: Block,
    border: Seq<IndexedPoint>,
    table: Seq<EigenRow>,
    target: nat,
    n_halo_target: nat,
    jitter_sigma: Real64,
    gauss: G,
    shift: A,
)
    requires
        rows.drawn_from(block, border, table, target, n_halo_target, jitter_sigma, gauss, shift),
        block.points@.len() > 0,
        border.len() <= usize::MAX,
        n_halo_target <= target,
    ensures
        rows.points@.len() == target,
        rows.eigen_rows@.len() == target,
        rows.halo@.len() <= n_halo_target,
{
    law_halo_is_of_the_border(border, n_halo_target, block.id, rows.halo@);
    assert(block.points@.len() == block.points.len());
    law_sample_is_of_the_block(
        block.points@,
        core_target(target, rows.halo@.len()),
        block.id,
        jitter_sigma,
        gauss,
        shift,
        rows.points@.take(rows.sampled_indices@.len() as int),
        rows.sampled_indices@,
        rows.oversampled,
    );
}

/// Where the answers of the generator and of the functions that move a
/// coordinate are fixed by what they are given, sampling a block a second time
/// gives the same rows.
pub proof fn law_same_block_same_rows<
    G: Fn(SmallRng, Real64) -> (SmallRng, Real64),
    A: Fn(Real64, Real64) -> Real64,
>(
    m: SamplingModel,
    a: SampledRows,
    b: SampledRows,
    block: Block,
    border: Seq<IndexedPoint>,
    table: Seq<EigenRow>,
    target: nat,
    n_halo_target: nat,
    jitter_sigma: Real64,
    gauss: G,
    shift: A,
)
    requires
        generates(m),
        moves(gauss, shift, m),
        a.drawn_from(block, border, table, target, n_halo_target, jitter_sigma, gauss, shift),
        b.drawn_from(block, border, table, target, n_halo_target, jitter_sigma, gauss, shift),
    ensures
        a.points@ == b.points@,
        a.eigen_rows@ == b.eigen_rows@,
        a.sampled_indices@ == b.sampled_indices@,
        a.oversampled == b.oversampled,
        a.halo@ == b.halo@,
{
    law_same_seed_same_halo(m, border, n_halo_target, block.id, a.halo@, b.halo@);
    let at = a.sampled_indices@.len() as int;
    let bt = b.sampled_indices@.len() as int;
    law_same_seed_same_sample(
        m,
        block.points@,
        core_target(target, a.halo@.len()),
        block.id,
        jitter_sigma,
        gauss,
        shift,
        (a.points@.take(at), a.sampled_indices@, a.oversampled),
        (b.points@.take(bt), b.sampled_indices@, b.oversampled),
    );
    assert(a.points@ =~= a.points@.take(at) + a.points@.skip(at));
    assert(b.points@ =~= b.points@.take(bt) + b.points@.skip(bt));
}

/// Samples the rows of a block: at most `n_halo_target` halo rows from its
/// border, and core rows up to `target` rows in all.
pub fn sample_rows<
    G: Fn(SmallRng, Real64) -> (SmallRng, Real64),
    A: Fn(Real64, Real64) -> Real64,
>(
    block: &Block,
    border: &Vec<IndexedPoint>,
    table: &Vec<EigenRow>,
    target: usize,
    n_halo_target: usize,
    jitter_sigma: Real64,
    gauss: G,
    shift: A,
) -> (r: SampledRows)
    requires
        block.points@.len() == block.point_indices@.len(),
        forall|g: SmallRng, s: Real64| #[trigger] call_requires(gauss, (g, s)),
        forall|a: Real64, b: Real64| #[trigger] call_requires(shift, (a, b)),
    ensures
        r.drawn_from(
            *block,
            border@,
            table@,
            target as nat,
            n_halo_target as nat,
            jitter_sigma,
            gauss,
            shift,
        ),
{
    let halo = sample_halo(border, n_halo_target, block.id);
    let core_rows: usize = if halo.len() <= target {
        target - halo.len()
    } else {
        0
    };
    let (core, sampled_indices, oversampled) = resample_block(
        &block.points,
        core_rows,
        block.id,
        jitter_sigma,
        gauss,
        shift,
    );
    let ghost n = sampled_indices@.len() as int;
    let ghost core_points = core@;
    proof {
        assert(block.points@.len() == block.points.len());
        if block.points@.len() > 0 {
            law_sample_is_of_the_block(
                block.points@,
                core_rows as nat,
                block.id,
                jitter_sigma,
                gauss,
                shift,
                core@,
                sampled_indices@,
                oversampled,
            );
        }
    }
    let mut eigen_rows: Vec<EigenRow> = Vec::new();
    let mut i: usize = 0;
    while i < sampled_indices.len()
        invariant
            i <= sampled_indices@.len(),
            block.points@.len() == block.point_indices@.len(),
            forall|k: int|
                0 <= k < sampled_indices@.len() ==> (#[trigger] sampled_indices@[k])
                    < block.points@.len(),
            eigen_rows@ =~= core_eigen(
                table@,
                block.point_indices@,
                sampled_indices@.take(i as int),
            ),
        decreases sampled_indices@.len() - i,
    {
        eigen_rows.push(look_up_row(table, block.point_indices[sampled_indices[i]]));
        i = i + 1;
    }
    assert(sampled_indices@.take(i as int) =~= sampled_indices@);
    let ghost core_rows_done = eigen_rows@;
    let mut points = core;
    let mut k: usize = 0;
    while k < halo.len()
        invariant
            k <= halo@.len(),
            points@ =~= core_points + bare_points(halo@.take(k as int)),
            eigen_rows@ =~= core_rows_done + halo_eigen(table@, halo@.take(k as int)),
        decreases halo@.len() - k,
    {
        let p = halo[k];
        points.push(p.1);
        eigen_rows.push(look_up_row(table, p.0));
        k = k + 1;
    }
    proof {
        assert(halo@.take(k as int) =~= halo@);
        assert(points@.take(n) =~= core_points);
        assert(points@.skip(n) =~= bare_points(halo@));
    }
    SampledRows { points, eigen_rows, sampled_indices, oversampled, halo }
}

// ── Files and manifest entry ────────────────────────────────────────────────

/// The name of a block's file with this ending.
pub open spec fn block_file(id: nat, ending: Seq<char>) -> Seq<char> {
    "block_"@ + decimal5(id) + ending
}

/// The name of a block's file with this ending (`.feat`, `.lbl`, `.border`,
/// `.csv`).
pub fn block_file_name(id: u64, ending: &str) -> (r: String)
    ensures
        r@ == block_file(id as nat, ending@),
{
    let number = decimal5_text(id);
    concat3("block_", number.as_str(), ending)
}

fn halo_classes(halo: &Vec<IndexedPoint>) -> (r: Vec<u8>)
    ensures
        r@ == halo@.map_values(|p: IndexedPoint| p.1.classification),
{
    let mut out: Vec<u8> = Vec::new();
    let mut i: usize = 0;
    while i < halo.len()
        invariant
            i <= halo@.len(),
            out@ =~= halo@.take(i as int).map_values(|p: IndexedPoint| p.1.classification),
        decreases halo@.len() - i,
    {
        out.push(halo[i].1.classification);
        i = i + 1;
    }
    assert(halo@.take(i as int) =~= halo@);
    out
}

/// The result of a block whose rows were written. The positions of its rows
/// and the classes of its halo are kept only where they are asked for.
pub fn block_result(
    id: u64,
    origin_x: Real64,
    origin_y: Real64,
    raw_point_count: usize,
    rows: SampledRows,
    keep_indices: bool,
) -> (r: BlockProcessResult)
    ensures
        r.meta.id == id,
        r.meta.file@ == block_file(id as nat, ".feat"@),
        r.meta.origin_x == origin_x,
        r.meta.origin_y == origin_y,
        r.meta.raw_point_count == raw_point_count,
        r.meta.sampled_point_count == rows.points@.len(),
        r.meta.oversampled == rows.oversampled,
        r.meta.n_halo == rows.halo@.len(),
        r.sampled_indices@ == if keep_indices {
            rows.sampled_indices@
        } else {
            Seq::empty()
        },
        r.halo_classifications@ == if keep_indices {
            rows.halo@.map_values(|p: IndexedPoint| p.1.classification)
        } else {
            Seq::empty()
        },
{
    let meta = BlockMeta {
        id,
        file: block_file_name(id, ".feat"),
        origin_x,
        origin_y,
        raw_point_count,
        sampled_point_count: rows.points.len(),
        oversampled: rows.oversampled,
        n_halo: rows.halo.len(),
    };
    if keep_indices {
        let classes = halo_classes(&rows.halo);
        BlockProcessResult {
            meta,
            sampled_indices: rows.sampled_indices,
            halo_classifications: classes,
        }
    } else {
        BlockProcessResult {
            meta,
            sampled_indices: Vec::new(),
            halo_classifications: Vec::new(),
        }
    }
}

// ── Debug CSV ───────────────────────────────────────────────────────────────

/// The text of a feature value.
pub type ValueText = spec_fn(u32) -> Seq<char>;

/// `f` writes values as `m` says.
pub open spec fn writes_values<F: Fn(u32) -> String>(f: F, m: ValueText) -> bool {
    forall|v: u32, s: String| #[trigger] call_ensures(f, (v,), s) ==> s@ == m(v)
}

/// The texts of the first `n` values, with commas between them.
pub open spec fn csv_line(row: Seq<u32>, m: ValueText, n: int) -> Seq<char>
    decreases n,
{
    if n <= 0 {
        Seq::empty()
    } else if n == 1 {
        m(row[0])
    } else {
        csv_line(row, m, n - 1) + seq![','] + m(row[n - 1])
    }
}

/// The names of the feature columns.
pub open spec fn csv_header() -> Seq<char> {
    "x_norm,y_norm,z_norm,intensity_norm,return_ratio,scan_angle_norm,hag,lambda1,lambda2,lambda3,linearity,planarity,sphericity,omnivariance,eigentropy,slope,residual\n"@
}

/// The header and the lines of the first `n` rows.
pub open spec fn csv_text(rows: Seq<Vec<u32>>, m: ValueText, n: int) -> Seq<char>
    decreases n,
{
    if n <= 0 {
        csv_header()
    } else {
        csv_text(rows, m, n - 1) + csv_line(rows[n - 1]@, m, rows[n - 1]@.len() as int) + seq!['\n']
    }
}

fn push_line<F: Fn(u32) -> String>(out: String, row: &Vec<u32>, show: &F) -> (r: String)
    requires
        forall|v: u32| #[trigger] call_requires(*show, (v,)),
    ensures
        forall|m: ValueText| #[trigger]
            writes_values(*show, m) ==> r@ == out@ + csv_line(row@, m, row@.len() as int)
                + seq!['\n'],
{
    let ghost before = out@;
    let mut out = out;
    let mut i: usize = 0;
    while i < row.len()
        invariant
            i <= row@.len(),
            forall|v: u32| #[trigger] call_requires(*show, (v,)),
            forall|m: ValueText| #[trigger]
                writes_values(*show, m) ==> out@ =~= before + csv_line(row@, m, i as int),
        decreases row@.len() - i,
    {
        if i > 0 {
            out.push(',');
        }
        let s = show(row[i]);
        out.append(s.as_str());
        i = i + 1;
    }
    out.push('\n');
    out
}

/// The debug CSV file of a block: a line with the names of the columns and one
/// line per row, its values written by `show`.
pub fn debug_csv<F: Fn(u32) -> String>(features: &Vec<Vec<u32>>, show: F) -> (r: String)
    requires
        forall|v: u32| #[trigger] call_requires(show, (v,)),
    ensures
        forall|m: ValueText| #[trigger]
            writes_values(show, m) ==> r@ == csv_text(features@, m, features@.len() as int),
{
    let mut out =
        "x_norm,y_norm,z_norm,intensity_norm,return_ratio,scan_angle_norm,hag,lambda1,lambda2,lambda3,linearity,planarity,sphericity,omnivariance,eigentropy,slope,residual\n".to_owned();
    let mut i: usize = 0;
    while i < features.len()
        invariant
            i <= features@.len(),
            forall|v: u32| #[trigger] call_requires(show, (v,)),
            forall|m: ValueText| #[trigger]
                writes_values(show, m) ==> out@ == csv_text(features@, m, i as int),
        decreases features@.len() - i,
    {
        out = push_line(out, &features[i], &show);
        i = i + 1;
    }
    out
}

/// A core row has the eigenvalue row of the point it was drawn from, a halo row
/// that of its own point, and the halo points stand behind the core points. A
/// point beyond the table has a row of zeros.
pub proof fn law_rows_have_their_eigenvalues<
    G: Fn(SmallRng, Real64) -> (SmallRng, Real64),
    A: Fn(Real64, Real64) -> Real64,
>(
    rows: SampledRows,
    block: Block,
    border: Seq<IndexedPoint>,
    table: Seq<EigenRow>,
    target: nat,
    n_halo_target: nat,
    jitter_sigma: Real64,
    gauss: G,
    shift: A,
    k: int,
)
    requires
        rows.drawn_from(block, border, table, target, n_halo_target, jitter_sigma, gauss, shift),
        0 <= k < rows.points@.len(),
    ensures
        rows.eigen_rows@.len() == rows.points@.len(),
        ({
            let core = rows.sampled_indices@.len();
            let index = if k < core {
                block.point_indices@[rows.sampled_indices@[k] as int]
            } else {
                rows.halo@[k - core].0
            };
            let row = rows.eigen_rows@[k];
            &&& k >= core ==> rows.points@[k] == rows.halo@[k - core].1
            &&& index < table.len() ==> row == table[index as int]
            &&& index >= table.len() ==> row.lambda1 == 0 && row.lambda2 == 0 && row.lambda3 == 0
                && row.linearity == 0 && row.planarity == 0 && row.sphericity == 0
                && row.omnivariance == 0 && row.eigentropy == 0 && row.slope == 0 && row.residual
                == 0
        }),
{
    let core = rows.sampled_indices@.len() as int;
    if k >= core {
        assert(rows.points@.skip(core)[k - core] == bare_points(rows.halo@)[k - core]);
    }
}

/// A line of the debug table holds the row's values with commas between them.
pub proof fn law_table_lines(row: Seq<u32>, m: ValueText, n: int)
    requires
        0 <= n <= row.len(),
    ensures
        csv_line(row, m, n) == separated(Seq::new(n as nat, |i: int| m(row[i])), ','),
    decreases n,
{
    let parts = Seq::new(n as nat, |i: int| m(row[i]));
    if n > 1 {
        law_table_lines(row, m, n - 1);
        assert(parts.drop_last() =~= Seq::new((n - 1) as nat, |i: int| m(row[i])));
        assert(csv_line(row, m, n) =~= separated(parts, ','));
    }
}

/// A block's file is named `block_`, its number in at least five digits, and the
/// ending.
pub proof fn law_block_files_carry_their_number(id: nat, ending: Seq<char>)
    ensures
        ({
            let name = block_file(id, ending);
            let number = name.subrange(6, name.len() - ending.len());
            &&& name.take(6) == "block_"@
            &&& name.skip(name.len() - ending.len()) == ending
            &&& number.len() >= 5
            &&& unsigned_value(number) == Some(id)
        }),
{
    reveal_strlit("block_");
    law_decimal5_reads_back(id);
    let name = block_file(id, ending);
    assert(name.take(6) =~= "block_"@);
    assert(name.subrange(6, name.len() - ending.len()) =~= decimal5(id));
    assert(name.skip(name.len() - ending.len()) =~= ending);
}

/// A row added to a table stands at the table's old length and moves no other
/// row. An empty table has only zeros.
pub proof fn law_rows_are_looked_up_by_index(table: Seq<EigenRow>, row: EigenRow, index: u64)
    ensures
        index == table.len() ==> row_of(table.push(row), index) == row,
        index != table.len() ==> row_of(table.push(row), index) == row_of(table, index),
        row_of(Seq::<EigenRow>::empty(), index).lambda1 == 0,
        row_of(Seq::<EigenRow>::empty(), index).planarity == 0,
        row_of(Seq::<EigenRow>::empty(), index).residual == 0,
{
}

/// The values of a line are those of its first columns, a comma, and those of
/// the others.
pub proof fn law_values_are_joined_by_commas(row: Seq<u32>, m: ValueText, a: int, n: int)
    requires
        0 < a < n <= row.len(),
    ensures
        csv_line(row, m, 1) == m(row[0]),
        csv_line(row, m, n) == csv_line(row, m, a) + seq![','] + csv_line(row.skip(a), m, n - a),
    decreases n,
{
    let rest = row.skip(a);
    let first = csv_line(row, m, a);
    assert(rest[n - a - 1] == row[n - 1]);
    if n == a + 1 {
        assert(csv_line(rest, m, 1) == m(rest[0]));
    } else {
        law_values_are_joined_by_commas(row, m, a, n - 1);
        let middle = csv_line(rest, m, n - a - 1);
        let last = m(row[n - 1]);
        assert(first + seq![','] + middle + seq![','] + last =~= first + seq![','] + (middle + seq![
            ',',
        ] + last));
    }
}

/// The table of all rows is the heading and the lines of the first ones, and
/// behind them the lines of the others.
pub proof fn law_lines_follow_the_heading(rows: Seq<Vec<u32>>, m: ValueText, a: int, n: int)
    requires
        0 <= a <= n <= rows.len(),
    ensures
        csv_text(rows, m, 0) == csv_header(),
        csv_text(rows, m, n).take(csv_header().len() as int) == csv_header(),
        n > a ==> csv_text(rows, m, n).last() == '\n',
        csv_text(rows, m, n) == csv_text(rows, m, a) + csv_text(rows.skip(a), m, n - a).skip(
            csv_header().len() as int,
        ),
    decreases n,
{
    let h = csv_header().len() as int;
    let start = csv_text(rows, m, a);
    let rest = rows.skip(a);
    lemma_csv_heading(rows, m, n);
    if n == a {
        assert(start + csv_text(rest, m, 0).skip(h) =~= start);
    } else {
        law_lines_follow_the_heading(rows, m, a, n - 1);
        lemma_csv_heading(rest, m, n - a - 1);
        assert(rest[n - a - 1] == rows[n - 1]);
        let line = csv_line(rows[n - 1]@, m, rows[n - 1]@.len() as int);
        let part = csv_text(rest, m, n - a - 1);
        assert((part + line + seq!['\n']).skip(h) =~= part.skip(h) + line + seq!['\n']);
        assert(start + (part.skip(h) + line + seq!['\n']) =~= start + part.skip(h) + line + seq![
            '\n',
        ]);
    }
}

proof fn lemma_csv_heading(rows: Seq<Vec<u32>>, m: ValueText, n: int)
    requires
        0 <= n,
    ensures
        csv_text(rows, m, n).len() >= csv_header().len(),
        csv_text(rows, m, n).take(csv_header().len() as int) == csv_header(),
    decreases n,
{
    let h = csv_header().len() as int;
    if n > 0 {
        lemma_csv_heading(rows, m, n - 1);
        assert(csv_text(rows, m, n).take(h) =~= csv_text(rows, m, n - 1).take(h));
    } else {
        assert(csv_header().take(h) =~= csv_header());
    }
}

} // verus!
