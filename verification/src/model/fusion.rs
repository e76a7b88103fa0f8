//! Cross-block prediction fusion: every point is labelled by the blocks whose
//! reach covers it.
//!
//! Each block in reach votes with the class probabilities of its sampled point
//! nearest to the place, weighted by how central the place is to the block and
//! by how near that point is. A place deep inside its own block is decided by
//! that block alone.

use vstd::prelude::*;

use crate::error::{pipeline_text, shows, ClassifierError, ShowModel};
use crate::ieee::{Real32, Real64};
use crate::model::argmax::{argmax, argmax_index, law_argmax_keeps_to_the_order, Score};
use crate::preprocessing::pipeline::BlockManifest;
use crate::preprocessing::{block_id, block_number};
use crate::text::concat3;

verus! {

/// Fusion behaviour for one run.
#[derive(Debug, Clone, Copy, PartialEq, Eq, Structural)]
pub struct FusionConfig {
    /// How far a block votes beyond its own square, in projection units; zero
    /// disables fusion.
    pub radius: Real64,
}

/// The grid of blocks.
#[derive(Debug, Clone, Copy, PartialEq, Eq, Structural)]
pub struct GridGeometry {
    /// South-west X origin of the grid.
    pub x_min: Real64,
    /// South-west Y origin of the grid.
    pub y_min: Real64,
    /// Edge length of a cell.
    pub block_size: Real64,
    /// Number of grid columns.
    pub grid_cols: i64,
    /// Number of grid rows.
    pub grid_rows: i64,
}

pub open spec fn missing_grid_message() -> Seq<char> {
    "blocks.json is missing grid_cols/grid_rows — re-run preprocessing to regenerate it"@
}

pub open spec fn block_size_message(shown: Seq<char>) -> Seq<char> {
    "blocks.json has non-positive block_size ("@ + shown + ")"@
}

impl GridGeometry {
    /// At least one cell.
    pub open spec fn ok(self) -> bool {
        &&& 0 < self.grid_cols
        &&& 0 < self.grid_rows
    }

    /// The grid of a manifest; an error where it has no columns, no rows or no
    /// positive block size. `show` writes the number of the message.
    pub fn from_manifest<S: Fn(Real64) -> String>(manifest: &BlockManifest, show: S) -> (r: Result<
        GridGeometry,
        ClassifierError,
    >)
        requires
            forall|x: Real64| #[trigger] call_requires(show, (x,)),
        ensures
            match r {
                Ok(g) => {
                    &&& manifest.grid_cols > 0 && manifest.grid_rows > 0
                    &&& manifest.block_size.positive()
                    &&& g.ok()
                    &&& g.x_min == manifest.grid_x_min
                    &&& g.y_min == manifest.grid_y_min
                    &&& g.block_size == manifest.block_size
                    &&& g.grid_cols == manifest.grid_cols
                    &&& g.grid_rows == manifest.grid_rows
                },
                Err(e) => {
                    &&& e is Pipeline
                    &&& if manifest.grid_cols == 0 || manifest.grid_rows == 0 {
                        e.text() == pipeline_text(missing_grid_message())
                    } else {
                        &&& !manifest.block_size.positive()
                        &&& forall|m: ShowModel| #[trigger]
                            shows(show, m) ==> e.text() == pipeline_text(
                                block_size_message(m(manifest.block_size)),
                            )
                    }
                },
            },
    {
        if manifest.grid_cols == 0 || manifest.grid_rows == 0 {
            return Err(
                ClassifierError::Pipeline(
                    "blocks.json is missing grid_cols/grid_rows — re-run preprocessing to regenerate it".to_owned(),
                ),
            );
        }
        if !manifest.block_size.is_positive() {
            let shown = show(manifest.block_size);
            return Err(
                ClassifierError::Pipeline(
                    concat3("blocks.json has non-positive block_size (", shown.as_str(), ")"),
                ),
            );
        }
        Ok(
            GridGeometry {
                x_min: manifest.grid_x_min,
                y_min: manifest.grid_y_min,
                block_size: manifest.block_size,
                grid_cols: manifest.grid_cols as i64,
                grid_rows: manifest.grid_rows as i64,
            },
        )
    }
}

// ── Candidates ──────────────────────────────────────────────────────────────

/// A place as the grid sees it.
#[derive(Debug, Clone, Copy, PartialEq, Eq, Structural)]
pub struct Place {
    /// The column and the row of the cell that holds it.
    pub col: i64,
    pub row: i64,
    /// Its distance to the nearest edge of that cell.
    pub inset: Real64,
    /// The columns and the rows, in the grid or not, that hold the places one
    /// radius west, east, south and north of it.
    pub col_west: i64,
    pub col_east: i64,
    pub row_south: i64,
    pub row_north: i64,
}

/// Columns and rows, both ends included.
#[derive(Debug, Clone, Copy, PartialEq, Eq, Structural)]
pub struct CellRange {
    pub col_lo: i64,
    pub col_hi: i64,
    pub row_lo: i64,
    pub row_hi: i64,
}

/// `v`, but at least `lo`.
pub open spec fn at_least(v: i64, lo: i64) -> i64 {
    if v < lo {
        lo
    } else {
        v
    }
}

/// `v`, but at most `hi`.
pub open spec fn no_more(v: i64, hi: int) -> i64 {
    if v > hi {
        hi as i64
    } else {
        v
    }
}

/// The cells of the grid whose reach may hold the place.
pub open spec fn reach_of(p: Place, grid: GridGeometry) -> CellRange {
    CellRange {
        col_lo: at_least(p.col_west, 0),
        col_hi: no_more(p.col_east, grid.grid_cols - 1),
        row_lo: at_least(p.row_south, 0),
        row_hi: no_more(p.row_north, grid.grid_rows - 1),
    }
}

/// The cells of the grid whose reach may hold the place.
pub fn candidate_ranges(p: &Place, grid: &GridGeometry) -> (r: CellRange)
    requires
        grid.ok(),
    ensures
        r == reach_of(*p, *grid),
{
    let last_col: i64 = grid.grid_cols - 1;
    let last_row: i64 = grid.grid_rows - 1;
    CellRange {
        col_lo: if p.col_west < 0 {
            0
        } else {
            p.col_west
        },
        col_hi: if p.col_east > last_col {
            last_col
        } else {
            p.col_east
        },
        row_lo: if p.row_south < 0 {
            0
        } else {
            p.row_south
        },
        row_hi: if p.row_north > last_row {
            last_row
        } else {
            p.row_north
        },
    }
}

/// The number of columns (or rows) from `lo` to `hi`.
pub open spec fn span(lo: i64, hi: i64) -> nat {
    if lo <= hi {
        (hi - lo + 1) as nat
    } else {
        0
    }
}

/// The cells (column, row) of the first `n` rows of a range: rows from south
/// to north, in each of them columns from west to east.
pub open spec fn cells_of(c: CellRange, n: int) -> Seq<(i64, i64)>
    decreases n,
{
    if n <= 0 {
        Seq::empty()
    } else {
        cells_of(c, n - 1) + Seq::new(
            span(c.col_lo, c.col_hi),
            |i: int| ((c.col_lo + i) as i64, (c.row_lo + n - 1) as i64),
        )
    }
}

/// All cells of a range.
pub open spec fn candidates(c: CellRange) -> Seq<(i64, i64)> {
    cells_of(c, span(c.row_lo, c.row_hi) as int)
}

proof fn lemma_cells_len(c: CellRange, n: int)
    requires
        0 <= n,
    ensures
        cells_of(c, n).len() == n * span(c.col_lo, c.col_hi),
    decreases n,
{
    let s = span(c.col_lo, c.col_hi) as int;
    if n > 0 {
        lemma_cells_len(c, n - 1);
        assert(n * s == (n - 1) * s + s) by (nonlinear_arith);
    } else {
        assert(0 * s == 0) by (nonlinear_arith);
    }
}

/// With a reach of at most half a cell, at most four blocks can vote. Places,
/// reach and cell size are whole multiples of some unit here.
pub proof fn law_at_most_four_candidates(
    x: int,
    y: int,
    reach: int,
    cell: int,
    p: Place,
    grid: GridGeometry,
)
    requires
        0 < cell,
        0 <= reach,
        2 * reach <= cell,
        grid.ok(),
        p.col_west == (x - reach) / cell,
        p.col_east == (x + reach) / cell,
        p.row_south == (y - reach) / cell,
        p.row_north == (y + reach) / cell,
    ensures
        candidates(reach_of(p, grid)).len() <= 4,
{
    lemma_two_cells(x, reach, cell);
    lemma_two_cells(y, reach, cell);
    let c = reach_of(p, grid);
    let n = span(c.row_lo, c.row_hi) as int;
    let s = span(c.col_lo, c.col_hi) as int;
    lemma_cells_len(c, n);
    assert(n <= 2 && s <= 2);
    assert(n * s <= 4) by (nonlinear_arith)
        requires
            0 <= n <= 2,
            0 <= s <= 2,
    ;
}

proof fn lemma_two_cells(x: int, reach: int, cell: int)
    requires
        0 < cell,
        0 <= reach,
        2 * reach <= cell,
    ensures
        (x + reach) / cell <= (x - reach) / cell + 1,
{
    let a = (x - reach) / cell;
    let b = (x + reach) / cell;
    vstd::arithmetic::div_mod::lemma_fundamental_div_mod(x - reach, cell);
    vstd::arithmetic::div_mod::lemma_fundamental_div_mod(x + reach, cell);
    let ra = (x - reach) % cell;
    let rb = (x + reach) % cell;
    assert(b <= a + 1) by (nonlinear_arith)
        requires
            x - reach == cell * a + ra,
            x + reach == cell * b + rb,
            0 <= ra < cell,
            0 <= rb < cell,
            0 <= reach,
            2 * reach <= cell,
            0 < cell,
    ;
}

/// All cells of a range that lies in a grid.
pub fn candidate_cells(c: &CellRange) -> (r: Vec<(i64, i64)>)
    requires
        0 <= c.col_lo,
        c.col_hi < i64::MAX,
        0 <= c.row_lo,
        c.row_hi < i64::MAX,
    ensures
        r@ == candidates(*c),
{
    let mut out: Vec<(i64, i64)> = Vec::new();
    if c.row_lo > c.row_hi {
        return out;
    }
    let mut row: i64 = c.row_lo;
    while row <= c.row_hi
        invariant
            0 <= c.col_lo,
            c.col_hi < i64::MAX,
            0 <= c.row_lo <= row <= c.row_hi + 1,
            c.row_hi < i64::MAX,
            out@ == cells_of(*c, row - c.row_lo),
        decreases c.row_hi + 1 - row,
    {
        let ghost before = out@;
        let mut col: i64 = c.col_lo;
        while col <= c.col_hi
            invariant
                c.col_hi < i64::MAX,
                0 <= c.col_lo <= col,
                c.col_lo <= c.col_hi ==> col <= c.col_hi + 1,
                c.col_lo > c.col_hi ==> col == c.col_lo,
                out@ =~= before + Seq::new(
                    (col - c.col_lo) as nat,
                    |i: int| ((c.col_lo + i) as i64, row),
                ),
            decreases c.col_hi + 1 - col,
        {
            out.push((col, row));
            col = col + 1;
        }
        proof {
            let n = row - c.row_lo + 1;
            assert((c.row_lo + n - 1) as i64 == row);
            assert(out@ =~= cells_of(*c, n));
        }
        row = row + 1;
    }
    out
}

// ── Votes ───────────────────────────────────────────────────────────────────

/// What the caller computes of blocks at the place in question.
pub ghost struct VoteModel {
    /// The point of a block that is nearest to the place: its squared distance
    /// and its probabilities. None where there is no such block or it has no
    /// points.
    pub nearest: spec_fn(u64) -> Option<(Real64, Seq<Real32>)>,
    /// How central the place is to the cell (column, row).
    pub centrality: spec_fn(i64, i64) -> Real64,
    /// What a vote counts, by the centrality and the squared distance.
    pub weight: spec_fn(Real64, Real64) -> Real64,
    /// The score of a class after a vote of this weight gave it a probability.
    pub credit: spec_fn(Real64, Real64, Real32) -> Real64,
}

/// The four functions compute as `m` says.
pub open spec fn computes_votes<
    N: Fn(u64) -> Option<(Real64, Vec<Real32>)>,
    C: Fn(i64, i64) -> Real64,
    W: Fn(Real64, Real64) -> Real64,
    V: Fn(Real64, Real64, Real32) -> Real64,
>(nearest: N, centrality: C, weight: W, credit: V, m: VoteModel) -> bool {
    &&& forall|id: u64, r: Option<(Real64, Vec<Real32>)>| #[trigger]
        call_ensures(nearest, (id,), r) ==> match r {
            Some(vote) => (m.nearest)(id) == Some((vote.0, vote.1@)),
            None => (m.nearest)(id) is None,
        }
    &&& forall|c: i64, w: i64, t: Real64| #[trigger]
        call_ensures(centrality, (c, w), t) ==> t == (m.centrality)(c, w)
    &&& forall|t: Real64, d: Real64, x: Real64| #[trigger]
        call_ensures(weight, (t, d), x) ==> x == (m.weight)(t, d)
    &&& forall|score: Real64, w: Real64, p: Real32, x: Real64| #[trigger]
        call_ensures(credit, (score, w, p), x) ==> x == (m.credit)(score, w, p)
}

/// The scores after a vote of weight `w`: each class that the vote has a
/// probability for is credited with it.
pub open spec fn credited(
    m: VoteModel,
    scores: Seq<Real64>,
    w: Real64,
    row: Seq<Real32>,
) -> Seq<Real64> {
    scores.map(
        |c: int, score: Real64|
            if c < row.len() {
                (m.credit)(score, w, row[c])
            } else {
                score
            },
    )
}

/// The ID of a cell.
pub open spec fn id_of(cell: (i64, i64), grid_cols: i64) -> u64 {
    block_number(cell.1 as int, cell.0 as int, grid_cols as int) as u64
}

/// The block of the cell votes: it is there, has points, and the place is
/// within its reach.
pub open spec fn votes(m: VoteModel, cell: (i64, i64), grid_cols: i64) -> bool {
    &&& (m.nearest)(id_of(cell, grid_cols)) is Some
    &&& !(m.centrality)(cell.0, cell.1).at_most(Real64 { bits: 0 })
}

/// The scores after the block of the cell has voted.
pub open spec fn cast(
    m: VoteModel,
    scores: Seq<Real64>,
    cell: (i64, i64),
    grid_cols: i64,
) -> Seq<Real64> {
    let (d2, row) = (m.nearest)(id_of(cell, grid_cols))->0;
    credited(m, scores, (m.weight)((m.centrality)(cell.0, cell.1), d2), row)
}

/// The class scores after the first `n` cells have been asked, and whether any
/// of them voted.
pub open spec fn blend(
    m: VoteModel,
    cells: Seq<(i64, i64)>,
    grid_cols: i64,
    n_classes: nat,
    n: int,
) -> (Seq<Real64>, bool)
    decreases n,
{
    if n <= 0 {
        (Seq::new(n_classes, |i: int| Real64 { bits: 0 }), false)
    } else {
        let (scores, any) = blend(m, cells, grid_cols, n_classes, n - 1);
        let cell = cells[n - 1];
        if votes(m, cell, grid_cols) {
            (cast(m, scores, cell, grid_cols), true)
        } else {
            (scores, any)
        }
    }
}

/// The block that holds the place decides alone: fusion is off, or no other
/// block can reach so far in.
pub open spec fn decided_at_home(p: Place, radius: Real64) -> bool {
    radius.at_most(Real64 { bits: 0 }) || radius.at_most(p.inset)
}

/// Whether a cell (column, row) lies in the grid.
pub open spec fn in_grid(cell: (i64, i64), grid: GridGeometry) -> bool {
    0 <= cell.0 < grid.grid_cols && 0 <= cell.1 < grid.grid_rows
}

/// The class of a place; none where no block votes. No block holds a place
/// outside the grid, though blocks near by may reach it.
pub open spec fn label_of(
    m: VoteModel,
    p: Place,
    grid: GridGeometry,
    radius: Real64,
    n_classes: nat,
) -> Option<int> {
    if decided_at_home(p, radius) {
        if in_grid((p.col, p.row), grid) {
            match (m.nearest)(id_of((p.col, p.row), grid.grid_cols)) {
                Some((_, row)) => Some(argmax(row, row.len() as int)),
                None => None,
            }
        } else {
            None
        }
    } else {
        let cells = candidates(reach_of(p, grid));
        let (scores, any) = blend(m, cells, grid.grid_cols, n_classes, cells.len() as int);
        if any {
            Some(argmax(scores, scores.len() as int))
        } else {
            None
        }
    }
}

fn zero_scores(n: usize) -> (r: Vec<Real64>)
    ensures
        r@ == Seq::new(n as nat, |i: int| Real64 { bits: 0 }),
{
    let mut out: Vec<Real64> = Vec::new();
    let mut i: usize = 0;
    while i < n
        invariant
            i <= n,
            out@ =~= Seq::new(i as nat, |k: int| Real64 { bits: 0 }),
        decreases n - i,
    {
        out.push(Real64 { bits: 0 });
        i = i + 1;
    }
    out
}

/// Credits each class with its probability.
fn credit_all<V: Fn(Real64, Real64, Real32) -> Real64>(
    scores: Vec<Real64>,
    w: Real64,
    row: &Vec<Real32>,
    credit: &V,
) -> (r: Vec<Real64>)
    requires
        forall|a: Real64, v: Real64, p: Real32| #[trigger] call_requires(*credit, (a, v, p)),
    ensures
        r@.len() == scores@.len(),
        forall|c: int|
            0 <= c < r@.len() ==> if c < row@.len() {
                call_ensures(*credit, (scores@[c], w, row@[c]), #[trigger] r@[c])
            } else {
                r@[c] == scores@[c]
            },
{
    let ghost before = scores@;
    let mut scores = scores;
    let mut c: usize = 0;
    while c < scores.len() && c < row.len()
        invariant
            c <= scores@.len(),
            c <= row@.len(),
            scores@.len() == before.len(),
            forall|a: Real64, v: Real64, p: Real32| #[trigger] call_requires(*credit, (a, v, p)),
            forall|k: int|
                0 <= k < c ==> call_ensures(
                    *credit,
                    (before[k], w, row@[k]),
                    #[trigger] scores@[k],
                ),
            forall|k: int| c <= k < scores@.len() ==> #[trigger] scores@[k] == before[k],
        decreases scores@.len() - c,
    {
        let x = credit(scores[c], w, row[c]);
        scores.set(c, x);
        c = c + 1;
    }
    scores
}

/// The class of a place, in model class-index space; none where no block
/// votes. `nearest` gives the squared distance and the probabilities of the
/// point of a block that is nearest to the place, `centrality` how central the
/// place is to a cell, `weight` what a vote counts, and `credit` adds what it
/// gives to the score of a class.
pub fn fused_label<
    N: Fn(u64) -> Option<(Real64, Vec<Real32>)>,
    C: Fn(i64, i64) -> Real64,
    W: Fn(Real64, Real64) -> Real64,
    V: Fn(Real64, Real64, Real32) -> Real64,
>(
    p: &Place,
    grid: &GridGeometry,
    radius: Real64,
    n_classes: usize,
    nearest: N,
    centrality: C,
    weight: W,
    credit: V,
) -> (r: Option<usize>)
    requires
        grid.ok(),
        forall|id: u64| #[trigger] call_requires(nearest, (id,)),
        forall|c: i64, w: i64| #[trigger] call_requires(centrality, (c, w)),
        forall|t: Real64, d: Real64| #[trigger] call_requires(weight, (t, d)),
        forall|a: Real64, w: Real64, p: Real32| #[trigger] call_requires(credit, (a, w, p)),
    ensures
        forall|m: VoteModel| #[trigger]
            computes_votes(nearest, centrality, weight, credit, m) ==> match r {
                Some(class) => label_of(m, *p, *grid, radius, n_classes as nat) == Some(
                    class as int,
                ),
                None => label_of(m, *p, *grid, radius, n_classes as nat) is None,
            },
{
    let zero = Real64 { bits: 0 };
    if radius.le(zero) || radius.le(p.inset) {
        if p.col < 0 || p.col >= grid.grid_cols || p.row < 0 || p.row >= grid.grid_rows {
            return None;
        }
        return match nearest(block_id(p.row, p.col, grid.grid_cols)) {
            Some((_, row)) => Some(argmax_index(&row)),
            None => None,
        };
    }
    let range = candidate_ranges(p, grid);
    let cells = candidate_cells(&range);
    let mut scores = zero_scores(n_classes);
    let mut any: bool = false;
    let mut i: usize = 0;
    while i < cells.len()
        invariant
            i <= cells@.len(),
            zero == (Real64 { bits: 0 }),
            forall|id: u64| #[trigger] call_requires(nearest, (id,)),
            forall|c: i64, w: i64| #[trigger] call_requires(centrality, (c, w)),
            forall|t: Real64, d: Real64| #[trigger] call_requires(weight, (t, d)),
            forall|a: Real64, w: Real64, p: Real32| #[trigger] call_requires(credit, (a, w, p)),
            forall|m: VoteModel| #[trigger]
                computes_votes(nearest, centrality, weight, credit, m) ==> blend(
                    m,
                    cells@,
                    grid.grid_cols,
                    n_classes as nat,
                    i as int,
                ) == (scores@, any),
        decreases cells@.len() - i,
    {
        let (col, row) = cells[i];
        let id: u64 = block_id(row, col, grid.grid_cols);
        assert(id == id_of(cells@[i as int], grid.grid_cols));
        let t = centrality(col, row);
        let ghost before = scores@;
        if !t.le(zero) {
            match nearest(id) {
                Some((d2, row)) => {
                    scores = credit_all(scores, weight(t, d2), &row, &credit);
                    any = true;
                    proof {
                        let cell = cells@[i as int];
                        assert forall|m: VoteModel| #[trigger]
                            computes_votes(nearest, centrality, weight, credit, m) implies scores@
                            == cast(m, before, cell, grid.grid_cols) by {
                            assert(scores@ =~= cast(m, before, cell, grid.grid_cols));
                        }
                    }
                },
                None => {},
            }
        }
        i = i + 1;
    }
    if any {
        Some(argmax_index(&scores))
    } else {
        None
    }
}

/// What neighbours would say changes nothing for a place deep inside its block,
/// or where fusion is off.
pub proof fn law_home_decides_alone(
    m: VoteModel,
    other: VoteModel,
    p: Place,
    grid: GridGeometry,
    radius: Real64,
    n_classes: nat,
)
    requires
        decided_at_home(p, radius),
        (m.nearest)(id_of((p.col, p.row), grid.grid_cols)) == (other.nearest)(
            id_of((p.col, p.row), grid.grid_cols),
        ),
    ensures
        label_of(m, p, grid, radius, n_classes) == label_of(other, p, grid, radius, n_classes),
{
}

/// A place is labelled exactly where a block votes: a block that is missing
/// leaves its places to the neighbours in reach.
pub proof fn law_labelled_where_any_votes(
    m: VoteModel,
    p: Place,
    grid: GridGeometry,
    radius: Real64,
    n_classes: nat,
)
    requires
        !decided_at_home(p, radius),
    ensures
        label_of(m, p, grid, radius, n_classes) is Some <==> exists|i: int|
            0 <= i < candidates(reach_of(p, grid)).len() && votes(
                m,
                #[trigger] candidates(reach_of(p, grid))[i],
                grid.grid_cols,
            ),
{
    let cells = candidates(reach_of(p, grid));
    lemma_any_voted(m, cells, grid.grid_cols, n_classes, cells.len() as int);
}

proof fn lemma_lone_voter(
    m: VoteModel,
    cells: Seq<(i64, i64)>,
    grid_cols: i64,
    n_classes: nat,
    k: int,
    n: int,
)
    requires
        0 <= n <= cells.len(),
        0 <= k < cells.len(),
        votes(m, cells[k], grid_cols),
        forall|i: int|
            0 <= i < cells.len() && i != k ==> !votes(m, #[trigger] cells[i], grid_cols),
    ensures
        blend(m, cells, grid_cols, n_classes, n) == {
            let zeros = Seq::new(n_classes, |i: int| Real64 { bits: 0 });
            if n <= k {
                (zeros, false)
            } else {
                (cast(m, zeros, cells[k], grid_cols), true)
            }
        },
    decreases n,
{
    if n > 0 {
        lemma_lone_voter(m, cells, grid_cols, n_classes, k, n - 1);
    }
}

/// A block that is the only one to vote gives a place the class of the highest
/// probability of its nearest point, where crediting keeps the order of the
/// probabilities: fusion changes nothing there.
pub proof fn law_lone_voter_decides(
    m: VoteModel,
    p: Place,
    grid: GridGeometry,
    radius: Real64,
    n_classes: nat,
    k: int,
)
    requires
        !decided_at_home(p, radius),
        0 <= k < candidates(reach_of(p, grid)).len(),
        votes(m, candidates(reach_of(p, grid))[k], grid.grid_cols),
        forall|i: int|
            0 <= i < candidates(reach_of(p, grid)).len() && i != k ==> !votes(
                m,
                #[trigger] candidates(reach_of(p, grid))[i],
                grid.grid_cols,
            ),
        ({
            let cell = candidates(reach_of(p, grid))[k];
            let (d2, row) = (m.nearest)(id_of(cell, grid.grid_cols))->0;
            let w = (m.weight)((m.centrality)(cell.0, cell.1), d2);
            let zero = Real64 { bits: 0 };
            &&& row.len() == n_classes
            &&& forall|i: int, j: int|
                0 <= i < row.len() && 0 <= j < row.len() ==> (m.credit)(zero, w, row[i]).less(
                    (m.credit)(zero, w, row[j]),
                ) == #[trigger] row[i].less(#[trigger] row[j])
        }),
    ensures
        ({
            let cell = candidates(reach_of(p, grid))[k];
            let (d2, row) = (m.nearest)(id_of(cell, grid.grid_cols))->0;
            label_of(m, p, grid, radius, n_classes) == Some(argmax(row, row.len() as int))
        }),
{
    let cells = candidates(reach_of(p, grid));
    let (d2, row) = (m.nearest)(id_of(cells[k], grid.grid_cols))->0;
    let zeros = Seq::new(n_classes, |i: int| Real64 { bits: 0 });
    let scores = cast(m, zeros, cells[k], grid.grid_cols);
    lemma_lone_voter(m, cells, grid.grid_cols, n_classes, k, cells.len() as int);
    assert forall|i: int, j: int|
        0 <= i < row.len() && 0 <= j < row.len() implies #[trigger] scores[i].below(
        #[trigger] scores[j],
    ) == row[i].below(row[j]) by {
        assert(row[i].less(row[j]) == row[i].below(row[j]));
    }
    law_argmax_keeps_to_the_order(row, scores, row.len() as int);
}

/// The block of a cell covers the place: the cell lies in the grid, its block
/// is there and has points, and it holds the place or, under fusion, reaches
/// it.
pub open spec fn covers(
    m: VoteModel,
    p: Place,
    grid: GridGeometry,
    radius: Real64,
    cell: (i64, i64),
) -> bool {
    &&& in_grid(cell, grid)
    &&& (m.nearest)(id_of(cell, grid.grid_cols)) is Some
    &&& if decided_at_home(p, radius) {
        cell == (p.col, p.row)
    } else {
        votes(m, cell, grid.grid_cols)
    }
}

/// Where no block covers a place, it has no label.
pub proof fn law_uncovered_is_unlabelled(
    m: VoteModel,
    p: Place,
    grid: GridGeometry,
    radius: Real64,
    n_classes: nat,
)
    requires
        grid.ok(),
        forall|cell: (i64, i64)| !#[trigger] covers(m, p, grid, radius, cell),
    ensures
        label_of(m, p, grid, radius, n_classes) is None,
{
    if decided_at_home(p, radius) {
        assert(!covers(m, p, grid, radius, (p.col, p.row)));
    } else {
        law_labelled_where_any_votes(m, p, grid, radius, n_classes);
        let c = reach_of(p, grid);
        let cells = candidates(c);
        assert forall|i: int| 0 <= i < cells.len() implies !votes(
            m,
            #[trigger] cells[i],
            grid.grid_cols,
        ) by {
            lemma_cells_in_range(c, span(c.row_lo, c.row_hi) as int, i);
            assert(!covers(m, p, grid, radius, cells[i]));
        }
    }
}

proof fn lemma_cells_in_range(c: CellRange, n: int, i: int)
    requires
        0 <= n <= span(c.row_lo, c.row_hi),
        0 <= i < cells_of(c, n).len(),
    ensures
        c.col_lo <= cells_of(c, n)[i].0 <= c.col_hi,
        c.row_lo <= cells_of(c, n)[i].1 <= c.row_hi,
    decreases n,
{
    if n > 0 && i < cells_of(c, n - 1).len() {
        lemma_cells_in_range(c, n - 1, i);
    }
}

proof fn lemma_any_voted(
    m: VoteModel,
    cells: Seq<(i64, i64)>,
    grid_cols: i64,
    n_classes: nat,
    n: int,
)
    requires
        0 <= n <= cells.len(),
    ensures
        blend(m, cells, grid_cols, n_classes, n).1 <==> exists|i: int|
            0 <= i < n && votes(m, #[trigger] cells[i], grid_cols),
    decreases n,
{
    if n > 0 {
        lemma_any_voted(m, cells, grid_cols, n_classes, n - 1);
        if votes(m, cells[n - 1], grid_cols) {
            assert(blend(m, cells, grid_cols, n_classes, n).1);
        } else if blend(m, cells, grid_cols, n_classes, n - 1).1 {
            let i = choose|i: int| 0 <= i < n - 1 && votes(m, #[trigger] cells[i], grid_cols);
            assert(votes(m, cells[i], grid_cols));
        } else {
            assert(forall|i: int|
                0 <= i < n ==> !votes(m, #[trigger] cells[i], grid_cols));
        }
    }
}

// ── Who votes, and what comes of it ─────────────────────────────────────────

proof fn lemma_cells_cover(c: CellRange, n: int, cell: (i64, i64))
    requires
        0 <= n <= span(c.row_lo, c.row_hi),
    ensures
        cells_of(c, n).contains(cell) <==> c.col_lo <= cell.0 <= c.col_hi && c.row_lo <= cell.1
            && cell.1 < c.row_lo + n,
    decreases n,
{
    if n > 0 {
        lemma_cells_cover(c, n - 1, cell);
        let before = cells_of(c, n - 1);
        let all = cells_of(c, n);
        if before.contains(cell) {
            let k = choose|k: int| 0 <= k < before.len() && before[k] == cell;
            assert(all[k] == cell);
        }
        if c.col_lo <= cell.0 <= c.col_hi && cell.1 == c.row_lo + n - 1 {
            assert(all[before.len() + (cell.0 - c.col_lo)] == cell);
        }
        if all.contains(cell) {
            let k = choose|k: int| 0 <= k < all.len() && all[k] == cell;
            if k < before.len() {
                assert(before[k] == cell);
            }
        }
    }
}

proof fn lemma_cells_distinct(c: CellRange, n: int)
    requires
        0 <= n <= span(c.row_lo, c.row_hi),
    ensures
        cells_of(c, n).no_duplicates(),
    decreases n,
{
    if n > 0 {
        lemma_cells_distinct(c, n - 1);
        let before = cells_of(c, n - 1);
        let all = cells_of(c, n);
        assert forall|i: int, j: int|
            0 <= i < all.len() && 0 <= j < all.len() && i != j implies all[i] != all[j] by {
            if i < before.len() {
                assert(before[i] == all[i]);
                assert(before.contains(before[i]));
                lemma_cells_cover(c, n - 1, before[i]);
            }
            if j < before.len() {
                assert(before[j] == all[j]);
                assert(before.contains(before[j]));
                lemma_cells_cover(c, n - 1, before[j]);
            }
        }
    }
}

/// The cells that are asked are those of the grid between the places one radius
/// west, east, south and north, each once. So the cell that holds the place is
/// always asked.
pub proof fn law_candidates_are_the_cells_in_reach(p: Place, grid: GridGeometry, cell: (i64, i64))
    requires
        grid.ok(),
    ensures
        candidates(reach_of(p, grid)).contains(cell) <==> 0 <= cell.0 < grid.grid_cols && 0
            <= cell.1 < grid.grid_rows && p.col_west <= cell.0 <= p.col_east && p.row_south
            <= cell.1 <= p.row_north,
        candidates(reach_of(p, grid)).no_duplicates(),
        0 <= p.col < grid.grid_cols && 0 <= p.row < grid.grid_rows && p.col_west <= p.col
            <= p.col_east && p.row_south <= p.row <= p.row_north ==> candidates(
            reach_of(p, grid),
        ).contains((p.col, p.row)),
{
    let c = reach_of(p, grid);
    let n = span(c.row_lo, c.row_hi) as int;
    lemma_cells_cover(c, n, cell);
    lemma_cells_cover(c, n, (p.col, p.row));
    lemma_cells_distinct(c, n);
}

/// A block votes where it has a nearest point and the place is not out of its
/// weight.
pub proof fn law_votes_need_a_point_and_a_weight(
    m: VoteModel,
    cell: (i64, i64),
    grid_cols: i64,
)
    requires
        0 <= cell.0 < grid_cols,
        0 <= cell.1,
        cell.1 * grid_cols + cell.0 <= u64::MAX,
    ensures
        votes(m, cell, grid_cols) <==> (m.nearest)((cell.1 * grid_cols + cell.0) as u64) is Some && (
        (m.centrality)(cell.0, cell.1).positive() || (m.centrality)(cell.0, cell.1).nan()),
{
    assert(0 <= cell.1 * grid_cols) by (nonlinear_arith)
        requires
            0 <= cell.1,
            0 < grid_cols,
    ;
    let k = cell.1 * grid_cols + cell.0;
    assert(k % 0x1_0000_0000_0000_0000 == k);
}

/// One more cell that is asked changes the scores only where its block votes.
/// Then each class is credited with the probability that the block gives it,
/// at a weight by how central the place is to that very cell and by how near
/// the block's point is.
pub proof fn law_each_vote_counts(
    m: VoteModel,
    cells: Seq<(i64, i64)>,
    grid_cols: i64,
    n_classes: nat,
    n: int,
    class: int,
)
    requires
        0 < n <= cells.len(),
        0 <= class < n_classes,
    ensures
        ({
            let cell = cells[n - 1];
            let before = blend(m, cells, grid_cols, n_classes, n - 1);
            let after = blend(m, cells, grid_cols, n_classes, n);
            &&& before.0.len() == n_classes && after.0.len() == n_classes
            &&& !votes(m, cell, grid_cols) ==> after == before
            &&& votes(m, cell, grid_cols) ==> after.1 && {
                let (d2, row) = (m.nearest)(id_of(cell, grid_cols))->0;
                let w = (m.weight)((m.centrality)(cell.0, cell.1), d2);
                after.0[class] == if class < row.len() {
                    (m.credit)(before.0[class], w, row[class])
                } else {
                    before.0[class]
                }
            }
        }),
        blend(m, cells, grid_cols, n_classes, 0).0[class] == (Real64 { bits: 0 }),
        !blend(m, cells, grid_cols, n_classes, 0).1,
{
    lemma_score_number(m, cells, grid_cols, n_classes, n);
    lemma_score_number(m, cells, grid_cols, n_classes, n - 1);
}

proof fn lemma_score_number(
    m: VoteModel,
    cells: Seq<(i64, i64)>,
    grid_cols: i64,
    n_classes: nat,
    n: int,
)
    ensures
        blend(m, cells, grid_cols, n_classes, n).0.len() == n_classes,
    decreases n,
{
    if n > 0 {
        lemma_score_number(m, cells, grid_cols, n_classes, n - 1);
    }
}

/// Without fusion, and for a place at least one radius inside its own square,
/// the label is the class of the highest probability that the block which holds
/// the place gives. Elsewhere it is the class with the highest score after all
/// cells in reach were asked.
pub proof fn law_label_of_a_place(
    m: VoteModel,
    p: Place,
    grid: GridGeometry,
    radius: Real64,
    n_classes: nat,
)
    requires
        grid.ok(),
        0 <= p.col < grid.grid_cols,
        0 <= p.row < grid.grid_rows,
        p.row * grid.grid_cols + p.col <= u64::MAX,
    ensures
        ({
            let alone = radius.at_most(Real64 { bits: 0 }) || radius.at_most(p.inset);
            let home = (m.nearest)((p.row * grid.grid_cols + p.col) as u64);
            let cells = candidates(reach_of(p, grid));
            let all = blend(m, cells, grid.grid_cols, n_classes, cells.len() as int);
            &&& alone && home is None ==> label_of(m, p, grid, radius, n_classes) is None
            &&& alone && home is Some ==> label_of(m, p, grid, radius, n_classes) == Some(
                argmax(home.unwrap().1, home.unwrap().1.len() as int),
            )
            &&& !alone && !all.1 ==> label_of(m, p, grid, radius, n_classes) is None
            &&& !alone && all.1 ==> label_of(m, p, grid, radius, n_classes) == Some(
                argmax(all.0, n_classes as int),
            )
        }),
{
    assert(0 <= p.row * grid.grid_cols) by (nonlinear_arith)
        requires
            0 <= p.row,
            0 < grid.grid_cols,
    ;
    let k = p.row * grid.grid_cols + p.col;
    assert(k % 0x1_0000_0000_0000_0000 == k);
    let cells = candidates(reach_of(p, grid));
    lemma_score_number(m, cells, grid.grid_cols, n_classes, cells.len() as int);
}

/// A place outside the grid gets no label from its own cell, and a place that no
/// cell of the grid reaches gets none at all.
pub proof fn law_nothing_is_labelled_outside_the_grid(
    m: VoteModel,
    p: Place,
    grid: GridGeometry,
    radius: Real64,
    n_classes: nat,
)
    requires
        grid.ok(),
    ensures
        (radius.at_most(Real64 { bits: 0 }) || radius.at_most(p.inset)) && (p.col < 0 || p.row < 0
            || p.col >= grid.grid_cols || p.row >= grid.grid_rows) ==> label_of(
            m,
            p,
            grid,
            radius,
            n_classes,
        ) is None,
        !(radius.at_most(Real64 { bits: 0 }) || radius.at_most(p.inset)) && (p.col_east < 0
            || p.row_north < 0 || p.col_west >= grid.grid_cols || p.row_south >= grid.grid_rows)
            ==> label_of(m, p, grid, radius, n_classes) is None,
{
    let cells = candidates(reach_of(p, grid));
    if p.col_east < 0 || p.row_north < 0 || p.col_west >= grid.grid_cols || p.row_south
        >= grid.grid_rows {
        if cells.len() > 0 {
            law_candidates_are_the_cells_in_reach(p, grid, cells[0]);
            assert(cells.contains(cells[0]));
        }
    }
}

} // verus!
