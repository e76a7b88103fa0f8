//! The eigenvalue-feature pre-pass: memory gate, spatial strips and the table
//! of rows by point index.
//!
//! The features of the whole cloud are computed at once where the estimated
//! memory fits the budget. Otherwise the cloud is cut into strips along one
//! axis. Each strip is computed with an overlap on both sides, and only the
//! rows of its core points are kept.

use vstd::prelude::*;

use crate::codec::{
    get_u64, get_words, law_u64_round_trip, law_words_round_trip, le64, le_words,
    lemma_le_words_len, lemma_stands_split, stands_at, u32_at, u64_at, words_at,
};
use crate::counting::{lemma_selects_step, selects};
use crate::error::ClassifierError;
use crate::ieee::Real64;
use crate::text::{concat2, decimal, decimal_text};

verus! {

/// Bytes per record of a feature sidecar file: the point number (8 bytes) and
/// ten 32-bit values.
pub const EIGEN_RECORD_BYTES: usize = 48;

/// The eigenvalue features of one point: ten 32-bit floating-point patterns.
#[derive(Debug, Clone, Copy, PartialEq, Eq, Structural)]
pub struct EigenRow {
    pub lambda1: u32,
    pub lambda2: u32,
    pub lambda3: u32,
    pub linearity: u32,
    pub planarity: u32,
    pub sphericity: u32,
    pub omnivariance: u32,
    pub eigentropy: u32,
    pub slope: u32,
    pub residual: u32,
}

impl EigenRow {
    /// The row from its ten values in file order.
    pub open spec fn from_values(w: Seq<u32>) -> EigenRow {
        EigenRow {
            lambda1: w[0],
            lambda2: w[1],
            lambda3: w[2],
            linearity: w[3],
            planarity: w[4],
            sphericity: w[5],
            omnivariance: w[6],
            eigentropy: w[7],
            slope: w[8],
            residual: w[9],
        }
    }

    /// The ten values in file order.
    pub open spec fn values(self) -> Seq<u32> {
        seq![
            self.lambda1,
            self.lambda2,
            self.lambda3,
            self.linearity,
            self.planarity,
            self.sphericity,
            self.omnivariance,
            self.eigentropy,
            self.slope,
            self.residual,
        ]
    }

    /// The row of ten zeros.
    pub open spec fn zeros() -> EigenRow {
        EigenRow {
            lambda1: 0,
            lambda2: 0,
            lambda3: 0,
            linearity: 0,
            planarity: 0,
            sphericity: 0,
            omnivariance: 0,
            eigentropy: 0,
            slope: 0,
            residual: 0,
        }
    }

    pub fn zero() -> (r: EigenRow)
        ensures
            r == Self::zeros(),
    {
        EigenRow {
            lambda1: 0,
            lambda2: 0,
            lambda3: 0,
            linearity: 0,
            planarity: 0,
            sphericity: 0,
            omnivariance: 0,
            eigentropy: 0,
            slope: 0,
            residual: 0,
        }
    }

    /// The ten values in file order.
    pub fn to_values(&self) -> (r: Vec<u32>)
        ensures
            r@ == self.values(),
    {
        let r: Vec<u32> = vec![
            self.lambda1,
            self.lambda2,
            self.lambda3,
            self.linearity,
            self.planarity,
            self.sphericity,
            self.omnivariance,
            self.eigentropy,
            self.slope,
            self.residual,
        ];
        assert(r@ =~= self.values());
        r
    }
}

// ── The memory gate ─────────────────────────────────────────────────────────

/// How the pre-pass runs over the input.
#[derive(Debug, Clone, Copy, PartialEq, Eq, Structural)]
pub enum PrepassPlan {
    /// Once over the whole file.
    Whole,
    /// Once over each of this many strips.
    Split { n_strips: usize },
}

/// The least `n` with `n * b >= a`.
pub open spec fn ceil_div(a: int, b: int) -> int {
    if a % b == 0 {
        a / b
    } else {
        a / b + 1
    }
}

/// The number of strips for an estimate that exceeds the budget; at least 2.
pub open spec fn strip_count(estimated: int, budget: int) -> int {
    let n = if budget == 0 {
        estimated
    } else {
        ceil_div(estimated, budget)
    };
    if n < 2 {
        2
    } else {
        n
    }
}

/// The estimated size of the point buffer, capped at the largest word.
pub open spec fn estimated_size(total_points: int, record_bytes: int) -> int {
    if total_points * record_bytes > usize::MAX {
        usize::MAX as int
    } else {
        total_points * record_bytes
    }
}

/// The number of spatial strips needed so that, roughly, each strip's own
/// point count fits within the budget: the estimate divided by the budget,
/// rounded up, at least 2.
pub fn compute_n_strips(estimated_bytes: usize, budget_bytes: usize) -> (r: usize)
    ensures
        r == strip_count(estimated_bytes as int, budget_bytes as int),
{
    let n: usize = if budget_bytes == 0 {
        estimated_bytes
    } else if estimated_bytes % budget_bytes == 0 {
        estimated_bytes / budget_bytes
    } else {
        proof {
            let (a, b) = (estimated_bytes as int, budget_bytes as int);
            vstd::arithmetic::div_mod::lemma_div_is_ordered_by_denominator(a, 1, b);
            vstd::arithmetic::div_mod::lemma_div_basics(a);
            if b == 1 {
                assert(a % b == 0);
            } else {
                vstd::arithmetic::div_mod::lemma_div_decreases(a, b);
            }
        }
        estimated_bytes / budget_bytes + 1
    };
    if n < 2 {
        2
    } else {
        n
    }
}

/// The plan for a number of points, the size of a record and a budget.
pub open spec fn planned(total_points: int, record_bytes: int, budget: int) -> PrepassPlan {
    let estimated = estimated_size(total_points, record_bytes);
    if estimated > budget {
        PrepassPlan::Split { n_strips: strip_count(estimated, budget) as usize }
    } else {
        PrepassPlan::Whole
    }
}

/// The whole file at once where the estimated buffer fits the budget, strips
/// otherwise.
pub fn plan_prepass(total_points: usize, record_bytes: usize, budget_bytes: usize) -> (r:
    PrepassPlan)
    ensures
        r == if estimated_size(total_points as int, record_bytes as int) > budget_bytes {
            PrepassPlan::Split {
                n_strips: strip_count(
                    estimated_size(total_points as int, record_bytes as int),
                    budget_bytes as int,
                ) as usize,
            }
        } else {
            PrepassPlan::Whole
        },
        r == planned(total_points as int, record_bytes as int, budget_bytes as int),
{
    let estimated: usize = match total_points.checked_mul(record_bytes) {
        Some(n) => n,
        None => usize::MAX,
    };
    if estimated > budget_bytes {
        PrepassPlan::Split { n_strips: compute_n_strips(estimated, budget_bytes) }
    } else {
        PrepassPlan::Whole
    }
}

/// With so many strips, an equal share of the estimate fits the budget.
pub proof fn law_strips_fit_budget(estimated: int, budget: int)
    requires
        0 <= estimated,
        0 < budget,
    ensures
        strip_count(estimated, budget) * budget >= estimated,
{
    let q = estimated / budget;
    let n = strip_count(estimated, budget);
    vstd::arithmetic::div_mod::lemma_fundamental_div_mod(estimated, budget);
    assert(budget * q == q * budget) by (nonlinear_arith);
    assert(n * budget >= q * budget + estimated % budget) by (nonlinear_arith)
        requires
            n >= q,
            estimated % budget != 0 ==> n >= q + 1,
            0 <= estimated % budget < budget,
            budget > 0,
    ;
}

// ── The sidecar file ────────────────────────────────────────────────────────

/// The point number of record `k`.
pub open spec fn point_number(b: Seq<u8>, k: int) -> u64 {
    u64_at(b, 48 * k)
}

/// The values of record `k`.
pub open spec fn record_row(b: Seq<u8>, k: int) -> EigenRow {
    EigenRow::from_values(words_at(b, 48 * k + 8, 10))
}

/// The table of `n` rows after the first `k` records: each record sets the row
/// of its point, all other rows are zero.
pub open spec fn eigen_table(b: Seq<u8>, n: nat, k: nat) -> Seq<EigenRow>
    decreases k,
{
    if k == 0 {
        Seq::new(n, |i: int| EigenRow::zeros())
    } else {
        eigen_table(b, n, (k - 1) as nat).update(
            point_number(b, k - 1) as int,
            record_row(b, k - 1),
        )
    }
}

/// Whether the point numbers of the first `k` records are below `n`.
pub open spec fn numbers_in_range(b: Seq<u8>, n: nat, k: int) -> bool {
    forall|j: int| 0 <= j < k ==> #[trigger] point_number(b, j) < n
}

/// The message on a file of the wrong length.
pub open spec fn size_message(path: Seq<char>, len: nat) -> Seq<char> {
    "eigen pre-pass output '"@ + path + "' has size "@ + decimal(len)
        + " bytes, not a multiple of 48 bytes/record"@
}

/// The message on a point number beyond the table.
pub open spec fn number_message(path: Seq<char>, number: nat, record: nat) -> Seq<char> {
    "eigen pre-pass output '"@ + path + "' has out-of-range point_num "@ + decimal(number)
        + " at record "@ + decimal(record)
}

/// Whether reading the file ends at record `k`, the first one whose point
/// number is out of range.
pub open spec fn first_bad_record(b: Seq<u8>, k: nat) -> bool {
    let n = b.len() / 48;
    k < n && numbers_in_range(b, n, k as int) && point_number(b, k as int) >= n
}

fn get_row(b: &Vec<u8>, pos: usize) -> (r: EigenRow)
    requires
        pos + 40 <= b@.len(),
    ensures
        r == EigenRow::from_values(words_at(b@, pos as int, 10)),
{
    let w = get_words(b, pos, 10);
    EigenRow {
        lambda1: w[0],
        lambda2: w[1],
        lambda3: w[2],
        linearity: w[3],
        planarity: w[4],
        sphericity: w[5],
        omnivariance: w[6],
        eigentropy: w[7],
        slope: w[8],
        residual: w[9],
    }
}

/// The table in a feature sidecar file with these contents, indexed by point
/// number: one row for each record of the file.
pub fn read_eigen_file(path: &str, bytes: &Vec<u8>) -> (r: Result<Vec<EigenRow>, ClassifierError>)
    ensures
        match r {
            Ok(table) => {
                let n = bytes@.len() / 48;
                &&& bytes@.len() % 48 == 0
                &&& numbers_in_range(bytes@, n, n as int)
                &&& table@ == eigen_table(bytes@, n, n)
            },
            Err(ClassifierError::Pipeline(m)) => if bytes@.len() % 48 != 0 {
                m@ == size_message(path@, bytes@.len())
            } else {
                exists|k: nat| #[trigger]
                    first_bad_record(bytes@, k) && m@ == number_message(
                        path@,
                        point_number(bytes@, k as int) as nat,
                        k,
                    )
            },
            Err(_) => false,
        },
{
    if bytes.len() % EIGEN_RECORD_BYTES != 0 {
        let mut m = concat2("eigen pre-pass output '", path);
        m.append("' has size ");
        m.append(decimal_text(bytes.len() as u64).as_str());
        m.append(" bytes, not a multiple of 48 bytes/record");
        return Err(ClassifierError::Pipeline(m));
    }
    let n: usize = bytes.len() / EIGEN_RECORD_BYTES;
    let mut table: Vec<EigenRow> = Vec::new();
    let mut z: usize = 0;
    while z < n
        invariant
            z <= n,
            table@ =~= Seq::new(z as nat, |i: int| EigenRow::zeros()),
        decreases n - z,
    {
        table.push(EigenRow::zero());
        z = z + 1;
    }
    let mut i: usize = 0;
    while i < n
        invariant
            i <= n,
            48 * n == bytes@.len(),
            table@.len() == n,
            numbers_in_range(bytes@, n as nat, i as int),
            table@ == eigen_table(bytes@, n as nat, i as nat),
        decreases n - i,
    {
        assert(bytes@.len() == bytes.len());
        let number: u64 = get_u64(bytes, i * EIGEN_RECORD_BYTES);
        assert(number == point_number(bytes@, i as int));
        if number >= n as u64 {
            let mut m = concat2("eigen pre-pass output '", path);
            m.append("' has out-of-range point_num ");
            m.append(decimal_text(number).as_str());
            m.append(" at record ");
            m.append(decimal_text(i as u64).as_str());
            assert(first_bad_record(bytes@, i as nat));
            return Err(ClassifierError::Pipeline(m));
        }
        let row = get_row(bytes, i * EIGEN_RECORD_BYTES + 8);
        table.set(number as usize, row);
        i = i + 1;
    }
    Ok(table)
}

/// The sidecar file that holds `rows` under the numbers 0, 1, and so on.
pub open spec fn eigen_bytes(rows: Seq<EigenRow>) -> Seq<u8>
    decreases rows.len(),
{
    if rows.len() == 0 {
        Seq::empty()
    } else {
        eigen_bytes(rows.drop_last()) + (le64((rows.len() - 1) as u64) + le_words(
            rows.last().values(),
        ))
    }
}

proof fn lemma_eigen_bytes_len(rows: Seq<EigenRow>)
    ensures
        eigen_bytes(rows).len() == 48 * rows.len(),
    decreases rows.len(),
{
    if rows.len() > 0 {
        lemma_eigen_bytes_len(rows.drop_last());
        lemma_le_words_len(rows.last().values());
    }
}

proof fn lemma_eigen_records(b: Seq<u8>, rows: Seq<EigenRow>, k: int)
    requires
        stands_at(b, 0, eigen_bytes(rows)),
        rows.len() <= u64::MAX,
        0 <= k < rows.len(),
    ensures
        point_number(b, k) == k,
        record_row(b, k) == rows[k],
    decreases rows.len(),
{
    let d = rows.drop_last();
    let number = le64((rows.len() - 1) as u64);
    let values = le_words(rows.last().values());
    lemma_eigen_bytes_len(d);
    lemma_stands_split(b, 0, eigen_bytes(d), number + values);
    if k < d.len() {
        lemma_eigen_records(b, d, k);
    } else {
        lemma_stands_split(b, 48 * k, number, values);
        law_u64_round_trip(b, 48 * k, (rows.len() - 1) as u64);
        law_words_round_trip(b, 48 * k + 8, rows.last().values());
    }
}

proof fn lemma_eigen_table_reads(b: Seq<u8>, rows: Seq<EigenRow>, k: nat)
    requires
        stands_at(b, 0, eigen_bytes(rows)),
        rows.len() <= u64::MAX,
        k <= rows.len(),
    ensures
        eigen_table(b, rows.len(), k).len() == rows.len(),
        forall|i: int| 0 <= i < k ==> #[trigger] eigen_table(b, rows.len(), k)[i] == rows[i],
    decreases k,
{
    if k > 0 {
        lemma_eigen_table_reads(b, rows, (k - 1) as nat);
        lemma_eigen_records(b, rows, k - 1);
    }
}

/// A table written record by record in point order reads back unchanged.
pub proof fn law_eigen_round_trip(rows: Seq<EigenRow>)
    requires
        rows.len() <= u64::MAX,
    ensures
        eigen_bytes(rows).len() % 48 == 0,
        eigen_bytes(rows).len() / 48 == rows.len(),
        numbers_in_range(eigen_bytes(rows), rows.len(), rows.len() as int),
        eigen_table(eigen_bytes(rows), rows.len(), rows.len()) == rows,
{
    let b = eigen_bytes(rows);
    lemma_eigen_bytes_len(rows);
    assert(b.subrange(0, b.len() as int) =~= b);
    assert forall|j: int| 0 <= j < rows.len() implies #[trigger] point_number(b, j) < rows.len() by {
        lemma_eigen_records(b, rows, j);
    }
    lemma_eigen_table_reads(b, rows, rows.len());
    assert(eigen_table(b, rows.len(), rows.len()) =~= rows);
}

// ── Strips ──────────────────────────────────────────────────────────────────

/// The ranges of one strip along the split axis: its core, and the core with
/// the overlap on both sides.
#[derive(Debug, Clone, Copy, PartialEq, Eq, Structural)]
pub struct StripRange {
    pub core_lo: Real64,
    pub core_hi: Real64,
    pub ext_lo: Real64,
    pub ext_hi: Real64,
    pub is_last: bool,
}

impl StripRange {
    /// The extended range includes both its ends.
    pub open spec fn takes(self, x: Real64) -> bool {
        self.ext_lo.at_most(x) && x.at_most(self.ext_hi)
    }

    /// The core excludes its upper end, except in the last strip.
    pub open spec fn owns(self, x: Real64) -> bool {
        self.core_lo.at_most(x) && if self.is_last {
            x.at_most(self.core_hi)
        } else {
            x.less(self.core_hi)
        }
    }
}

/// The strips between consecutive edges, each with its extended range.
pub fn strip_ranges(edges: &Vec<Real64>, reach: &Vec<(Real64, Real64)>) -> (r: Vec<StripRange>)
    requires
        edges@.len() == reach@.len() + 1,
    ensures
        r@ == strips_between(edges@, reach@),
{
    let n: usize = reach.len();
    let mut out: Vec<StripRange> = Vec::new();
    let mut i: usize = 0;
    while i < n
        invariant
            n == reach@.len(),
            edges@.len() == n + 1,
            i <= n,
            out@.len() == i,
            forall|k: int|
                0 <= k < i ==> #[trigger] out@[k] == strips_between(edges@, reach@)[k],
        decreases n - i,
    {
        out.push(
            StripRange {
                core_lo: edges[i],
                core_hi: edges[i + 1],
                ext_lo: reach[i].0,
                ext_hi: reach[i].1,
                is_last: i + 1 == n,
            },
        );
        i = i + 1;
    }
    assert(out@ =~= strips_between(edges@, reach@));
    out
}

pub open spec fn strips_between(edges: Seq<Real64>, reach: Seq<(Real64, Real64)>) -> Seq<
    StripRange,
> {
    Seq::new(
        reach.len(),
        |i: int|
            StripRange {
                core_lo: edges[i],
                core_hi: edges[i + 1],
                ext_lo: reach[i].0,
                ext_hi: reach[i].1,
                is_last: i + 1 == reach.len(),
            },
    )
}

/// A point that a strip has taken: its index in the input stream, and whether
/// it lies in the core.
pub type StripTag = (u64, bool);

/// The strips among the first `k` that take `x`, in order.
pub open spec fn takers(strips: Seq<StripRange>, x: Real64, k: int) -> Seq<usize>
    decreases k,
{
    if k <= 0 {
        Seq::empty()
    } else if strips[k - 1].takes(x) {
        takers(strips, x, k - 1).push((k - 1) as usize)
    } else {
        takers(strips, x, k - 1)
    }
}

/// The tags of one strip after a point at `x` with this index.
pub open spec fn tagged(tags: Seq<StripTag>, strip: StripRange, index: u64, x: Real64) -> Seq<
    StripTag,
> {
    if strip.takes(x) {
        tags.push((index, strip.owns(x)))
    } else {
        tags
    }
}

/// Routes one point to every strip whose extended range contains it. Returns
/// those strips, and records in each strip's tags whether the point lies in
/// the strip's core.
pub fn route_point_to_strips(
    x: Real64,
    index: u64,
    strips: &Vec<StripRange>,
    tags: &mut Vec<Vec<StripTag>>,
) -> (r: Vec<usize>)
    requires
        old(tags)@.len() == strips@.len(),
    ensures
        r@ == takers(strips@, x, strips@.len() as int),
        final(tags)@.len() == strips@.len(),
        forall|s: int|
            0 <= s < strips@.len() ==> (#[trigger] final(tags)@[s])@ == tagged(
                old(tags)@[s]@,
                strips@[s],
                index,
                x,
            ),
{
    let mut out: Vec<usize> = Vec::new();
    let mut s: usize = 0;
    while s < strips.len()
        invariant
            s <= strips@.len(),
            tags@.len() == strips@.len(),
            old(tags)@.len() == strips@.len(),
            out@ == takers(strips@, x, s as int),
            forall|k: int|
                0 <= k < s ==> (#[trigger] tags@[k])@ == tagged(
                    old(tags)@[k]@,
                    strips@[k],
                    index,
                    x,
                ),
            forall|k: int| s <= k < tags@.len() ==> #[trigger] tags@[k] == old(tags)@[k],
        decreases strips@.len() - s,
    {
        let strip = strips[s];
        if strip.ext_lo.le(x) && x.le(strip.ext_hi) {
            let is_core: bool = if strip.is_last {
                strip.core_lo.le(x) && x.le(strip.core_hi)
            } else {
                strip.core_lo.le(x) && x.lt(strip.core_hi)
            };
            tags[s].push((index, is_core));
            out.push(s);
        }
        s = s + 1;
    }
    out
}

/// The table after the first `k` rows of a strip: each core row goes to its
/// point's place.
pub open spec fn stitched(
    table: Seq<EigenRow>,
    tags: Seq<StripTag>,
    rows: Seq<EigenRow>,
    k: int,
) -> Seq<EigenRow>
    decreases k,
{
    if k <= 0 {
        table
    } else if tags[k - 1].1 && k - 1 < rows.len() {
        stitched(table, tags, rows, k - 1).update(tags[k - 1].0 as int, rows[k - 1])
    } else {
        stitched(table, tags, rows, k - 1)
    }
}

/// Keeps the core rows of one strip: row `i` of the strip belongs to the point
/// of tag `i`. Rows of points in the overlap are discarded.
pub fn stitch_strip(table: &mut Vec<EigenRow>, tags: &Vec<StripTag>, rows: &Vec<EigenRow>)
    requires
        forall|i: int|
            0 <= i < tags@.len() && (#[trigger] tags@[i]).1 ==> tags@[i].0 < old(table)@.len(),
    ensures
        final(table)@ == stitched(old(table)@, tags@, rows@, tags@.len() as int),
{
    let mut i: usize = 0;
    while i < tags.len()
        invariant
            i <= tags@.len(),
            table@.len() == old(table)@.len(),
            forall|k: int|
                0 <= k < tags@.len() && (#[trigger] tags@[k]).1 ==> tags@[k].0 < old(table)@.len(),
            table@ == stitched(old(table)@, tags@, rows@, i as int),
        decreases tags@.len() - i,
    {
        let tag = tags[i];
        assert(tags@[i as int] == tag);
        if tag.1 && i < rows.len() {
            assert(table@.len() == table.len());
            table.set(tag.0 as usize, rows[i]);
        }
        i = i + 1;
    }
}

// ── What the split computes ─────────────────────────────────────────────────

/// Edges in ascending order, none of them NaN.
pub open spec fn ascending(edges: Seq<Real64>) -> bool {
    forall|i: int, j: int|
        0 <= i <= j < edges.len() ==> (#[trigger] edges[i]).at_most(#[trigger] edges[j])
}

/// The last of the first `k` edges that is at most `x`.
spec fn owner(edges: Seq<Real64>, x: Real64, k: int) -> int
    decreases k,
{
    if k <= 1 || edges[k - 1].at_most(x) {
        k - 1
    } else {
        owner(edges, x, k - 1)
    }
}

proof fn lemma_owner(edges: Seq<Real64>, x: Real64, k: int)
    requires
        ascending(edges),
        1 <= k <= edges.len(),
        edges[0].at_most(x),
    ensures
        0 <= owner(edges, x, k) < k,
        edges[owner(edges, x, k)].at_most(x),
        owner(edges, x, k) + 1 < k ==> x.less(edges[owner(edges, x, k) + 1]),
    decreases k,
{
    if k > 1 && !edges[k - 1].at_most(x) {
        lemma_owner(edges, x, k - 1);
        assert(edges[0].at_most(edges[k - 1]));
    }
}

/// The cores cover the whole span and do not overlap: a coordinate between the
/// first and the last edge lies in the core of exactly one strip.
pub proof fn law_cores_partition_the_span(
    edges: Seq<Real64>,
    reach: Seq<(Real64, Real64)>,
    x: Real64,
) -> (s: int)
    requires
        reach.len() > 0,
        edges.len() == reach.len() + 1,
        ascending(edges),
        edges[0].at_most(x),
        x.at_most(edges.last()),
    ensures
        0 <= s < reach.len(),
        forall|t: int|
            0 <= t < reach.len() ==> ((#[trigger] strips_between(edges, reach)[t]).owns(x) <==> t
                == s),
{
    let strips = strips_between(edges, reach);
    let n = reach.len() as int;
    let s = owner(edges, x, n);
    lemma_owner(edges, x, n);
    assert(strips[s].owns(x));
    assert forall|t: int| 0 <= t < n && t != s implies !(#[trigger] strips[t]).owns(x) by {
        if t < s {
            assert(edges[t + 1].at_most(edges[s]));
        } else {
            assert(edges[s + 1].at_most(edges[t]));
        }
    }
    s
}

/// The tags of a strip after the first `n` points of a stream.
pub open spec fn stream_tags(strip: StripRange, coords: Seq<Real64>, n: nat) -> Seq<StripTag>
    decreases n,
{
    if n == 0 {
        Seq::empty()
    } else {
        tagged(
            stream_tags(strip, coords, (n - 1) as nat),
            strip,
            (n - 1) as u64,
            coords[n - 1],
        )
    }
}

/// The row of the strip's own table that belongs to point `i`.
pub open spec fn local_row(strip: StripRange, coords: Seq<Real64>, i: nat) -> nat {
    stream_tags(strip, coords, i).len()
}

proof fn lemma_stream_tags(strip: StripRange, coords: Seq<Real64>, n: nat)
    requires
        n <= coords.len() <= u64::MAX,
    ensures
        forall|j: int|
            0 <= j < stream_tags(strip, coords, n).len() ==> {
                let t = #[trigger] stream_tags(strip, coords, n)[j];
                &&& t.0 < n
                &&& strip.takes(coords[t.0 as int])
                &&& t.1 == strip.owns(coords[t.0 as int])
                &&& j == local_row(strip, coords, t.0 as nat)
            },
    decreases n,
{
    if n > 0 {
        let m = (n - 1) as nat;
        lemma_stream_tags(strip, coords, m);
        let before = stream_tags(strip, coords, m);
        let after = stream_tags(strip, coords, n);
        assert forall|j: int| 0 <= j < after.len() implies ({
            let t = #[trigger] after[j];
            &&& t.0 < n
            &&& strip.takes(coords[t.0 as int])
            &&& t.1 == strip.owns(coords[t.0 as int])
            &&& j == local_row(strip, coords, t.0 as nat)
        }) by {
            if j < before.len() {
                assert(after[j] == before[j]);
            }
        }
    }
}

proof fn lemma_local_row(strip: StripRange, coords: Seq<Real64>, i: nat, n: nat)
    requires
        i < n <= coords.len() <= u64::MAX,
        strip.takes(coords[i as int]),
    ensures
        local_row(strip, coords, i) < stream_tags(strip, coords, n).len(),
        stream_tags(strip, coords, n)[local_row(strip, coords, i) as int] == (
            i as u64,
            strip.owns(coords[i as int]),
        ),
    decreases n,
{
    if i + 1 < n {
        lemma_local_row(strip, coords, i, (n - 1) as nat);
    }
}

proof fn lemma_stitched(
    table: Seq<EigenRow>,
    strip: StripRange,
    coords: Seq<Real64>,
    rows: Seq<EigenRow>,
    k: int,
    i: nat,
)
    requires
        coords.len() == table.len(),
        coords.len() <= u64::MAX,
        0 <= k <= stream_tags(strip, coords, coords.len()).len(),
        rows.len() == stream_tags(strip, coords, coords.len()).len(),
        i < coords.len(),
    ensures
        stitched(table, stream_tags(strip, coords, coords.len()), rows, k).len() == table.len(),
        stitched(table, stream_tags(strip, coords, coords.len()), rows, k)[i as int] == if
            strip.takes(coords[i as int]) && strip.owns(coords[i as int]) && local_row(
            strip,
            coords,
            i,
        ) < k {
            rows[local_row(strip, coords, i) as int]
        } else {
            table[i as int]
        },
    decreases k,
{
    if k > 0 {
        let tags = stream_tags(strip, coords, coords.len());
        lemma_stitched(table, strip, coords, rows, k - 1, i);
        lemma_stream_tags(strip, coords, coords.len());
        let t = tags[k - 1];
        if strip.takes(coords[i as int]) {
            lemma_local_row(strip, coords, i, coords.len());
        }
    }
}

/// The table after the strips from 0 to `k`, each with its own rows.
pub open spec fn stitched_all(
    table: Seq<EigenRow>,
    strips: Seq<StripRange>,
    coords: Seq<Real64>,
    rows: Seq<Seq<EigenRow>>,
    k: int,
) -> Seq<EigenRow>
    decreases k,
{
    if k <= 0 {
        table
    } else {
        let tags = stream_tags(strips[k - 1], coords, coords.len());
        stitched(
            stitched_all(table, strips, coords, rows, k - 1),
            tags,
            rows[k - 1],
            tags.len() as int,
        )
    }
}

proof fn lemma_stitched_all(
    table: Seq<EigenRow>,
    strips: Seq<StripRange>,
    coords: Seq<Real64>,
    rows: Seq<Seq<EigenRow>>,
    k: int,
    i: nat,
    s: int,
)
    requires
        coords.len() == table.len(),
        coords.len() <= u64::MAX,
        0 <= k <= strips.len(),
        rows.len() == strips.len(),
        forall|t: int|
            0 <= t < strips.len() ==> (#[trigger] rows[t]).len() == stream_tags(
                strips[t],
                coords,
                coords.len(),
            ).len(),
        i < coords.len(),
        0 <= s < strips.len(),
        strips[s].takes(coords[i as int]),
        forall|t: int|
            0 <= t < strips.len() ==> ((#[trigger] strips[t]).owns(coords[i as int]) <==> t == s),
    ensures
        stitched_all(table, strips, coords, rows, k).len() == table.len(),
        stitched_all(table, strips, coords, rows, k)[i as int] == if s < k {
            rows[s][local_row(strips[s], coords, i) as int]
        } else {
            table[i as int]
        },
    decreases k,
{
    if k > 0 {
        lemma_stitched_all(table, strips, coords, rows, k - 1, i, s);
        let strip = strips[k - 1];
        let prev = stitched_all(table, strips, coords, rows, k - 1);
        assert(rows[k - 1].len() == stream_tags(strip, coords, coords.len()).len());
        lemma_stitched(
            prev,
            strip,
            coords,
            rows[k - 1],
            stream_tags(strip, coords, coords.len()).len() as int,
            i,
        );
        if k - 1 == s {
            lemma_local_row(strip, coords, i, coords.len());
        }
    }
}

/// Splitting keeps one row for every point: with a table of rows for each
/// strip, the stitched table holds, for each point within the span, the row
/// that the one strip whose core contains the point computed for it.
pub proof fn law_split_keeps_every_row(
    table: Seq<EigenRow>,
    edges: Seq<Real64>,
    reach: Seq<(Real64, Real64)>,
    coords: Seq<Real64>,
    rows: Seq<Seq<EigenRow>>,
    i: nat,
) -> (s: int)
    requires
        reach.len() > 0,
        edges.len() == reach.len() + 1,
        ascending(edges),
        forall|t: int|
            0 <= t < reach.len() ==> (#[trigger] reach[t]).0.at_most(edges[t]) && edges[t
                + 1].at_most(reach[t].1),
        coords.len() == table.len(),
        coords.len() <= u64::MAX,
        rows.len() == reach.len(),
        forall|t: int|
            0 <= t < reach.len() ==> (#[trigger] rows[t]).len() == stream_tags(
                strips_between(edges, reach)[t],
                coords,
                coords.len(),
            ).len(),
        i < coords.len(),
        edges[0].at_most(coords[i as int]),
        coords[i as int].at_most(edges.last()),
    ensures
        0 <= s < reach.len(),
        strips_between(edges, reach)[s].owns(coords[i as int]),
        stitched_all(table, strips_between(edges, reach), coords, rows, reach.len() as int)[i as int]
            == rows[s][local_row(strips_between(edges, reach)[s], coords, i) as int],
{
    let strips = strips_between(edges, reach);
    let x = coords[i as int];
    let s = law_cores_partition_the_span(edges, reach, x);
    assert(strips[s].owns(x));
    assert(strips[s].takes(x)) by {
        assert(reach[s].0.at_most(edges[s]) && edges[s + 1].at_most(reach[s].1));
    }
    lemma_stitched_all(table, strips, coords, rows, reach.len() as int, i, s);
    s
}

// ── What the strips and the table hold ──────────────────────────────────────

/// There are never fewer than two strips, and with a budget no more than are
/// needed to keep to it; without one there are as many as bytes.
pub proof fn law_no_strip_too_many(estimated: int, budget: int)
    requires
        0 <= estimated,
        0 <= budget,
    ensures
        strip_count(estimated, budget) >= 2,
        budget > 0 && strip_count(estimated, budget) > 2 ==> (strip_count(estimated, budget) - 1)
            * budget < estimated,
        budget == 0 && estimated >= 2 ==> strip_count(estimated, budget) == estimated,
{
    if budget > 0 {
        let n = strip_count(estimated, budget);
        let q = estimated / budget;
        let r = estimated % budget;
        assert(estimated == budget * q + r && 0 <= r < budget) by (nonlinear_arith)
            requires
                budget > 0,
                q == estimated / budget,
                r == estimated % budget,
        ;
        if n > 2 {
            assert((n - 1) * budget < estimated) by (nonlinear_arith)
                requires
                    budget > 0,
                    estimated == budget * q + r,
                    0 <= r < budget,
                    (r == 0 && n == q) || (r > 0 && n == q + 1),
            ;
        }
    }
}

/// The estimate is the size of all records, or the largest number there is where
/// that is less.
pub proof fn law_estimate_saturates(total_points: int, record_bytes: int)
    requires
        0 <= total_points,
        0 <= record_bytes,
    ensures
        estimated_size(total_points, record_bytes) <= usize::MAX,
        estimated_size(total_points, record_bytes) <= total_points * record_bytes,
        estimated_size(total_points, record_bytes) == usize::MAX || estimated_size(
            total_points,
            record_bytes,
        ) == total_points * record_bytes,
{
}

/// A row's ten numbers are stored in the order of its fields, after the eight
/// bytes of the point's number.
pub proof fn law_record_layout(b: Seq<u8>, k: int)
    ensures
        point_number(b, k) == u64_at(b, 48 * k),
        ({
            let r = record_row(b, k);
            &&& r.lambda1 == u32_at(b, 48 * k + 8)
            &&& r.lambda2 == u32_at(b, 48 * k + 12)
            &&& r.lambda3 == u32_at(b, 48 * k + 16)
            &&& r.linearity == u32_at(b, 48 * k + 20)
            &&& r.planarity == u32_at(b, 48 * k + 24)
            &&& r.sphericity == u32_at(b, 48 * k + 28)
            &&& r.omnivariance == u32_at(b, 48 * k + 32)
            &&& r.eigentropy == u32_at(b, 48 * k + 36)
            &&& r.slope == u32_at(b, 48 * k + 40)
            &&& r.residual == u32_at(b, 48 * k + 44)
        }),
{
    let w = words_at(b, 48 * k + 8, 10);
    assert(w[0] == u32_at(b, 48 * k + 8 + 4 * 0));
}

/// The values of a row are its fields in order.
pub proof fn law_values_are_the_fields(r: EigenRow)
    ensures
        r.values().len() == 10,
        r.values()[0] == r.lambda1,
        r.values()[1] == r.lambda2,
        r.values()[2] == r.lambda3,
        r.values()[3] == r.linearity,
        r.values()[4] == r.planarity,
        r.values()[5] == r.sphericity,
        r.values()[6] == r.omnivariance,
        r.values()[7] == r.eigentropy,
        r.values()[8] == r.slope,
        r.values()[9] == r.residual,
{
}

/// A point has the row of the last record with its number.
pub proof fn law_last_record_counts(b: Seq<u8>, n: nat, k: nat, i: int, at: int)
    requires
        numbers_in_range(b, n, k as int),
        0 <= at < k,
        u64_at(b, 48 * at) == i,
        forall|j: int| at < j < k ==> #[trigger] point_number(b, j) != i,
    ensures
        eigen_table(b, n, k).len() == n,
        0 <= i < n,
        eigen_table(b, n, k)[i] == record_row(b, at),
    decreases k,
{
    assert(numbers_in_range(b, n, k - 1)) by {
        assert forall|j: int| 0 <= j < k - 1 implies #[trigger] point_number(b, j) < n by {}
    }
    lemma_table_len(b, n, k);
    lemma_table_len(b, n, (k - 1) as nat);
    assert(point_number(b, at) == i);
    assert(point_number(b, k - 1) < n);
    if at < k - 1 {
        law_last_record_counts(b, n, (k - 1) as nat, i, at);
    }
}

/// A point without a record has a row of zeros.
pub proof fn law_points_without_a_record(b: Seq<u8>, n: nat, k: nat, i: int)
    requires
        numbers_in_range(b, n, k as int),
        0 <= i < n,
        forall|j: int| 0 <= j < k ==> #[trigger] point_number(b, j) != i,
    ensures
        ({
            let r = eigen_table(b, n, k)[i];
            &&& r.lambda1 == 0 && r.lambda2 == 0 && r.lambda3 == 0 && r.linearity == 0
            &&& r.planarity == 0 && r.sphericity == 0 && r.omnivariance == 0 && r.eigentropy == 0
            &&& r.slope == 0 && r.residual == 0
        }),
    decreases k,
{
    if k > 0 {
        assert(numbers_in_range(b, n, k - 1)) by {
            assert forall|j: int| 0 <= j < k - 1 implies #[trigger] point_number(b, j) < n by {}
        }
        lemma_table_len(b, n, (k - 1) as nat);
        assert(point_number(b, k - 1) < n);
        law_points_without_a_record(b, n, (k - 1) as nat, i);
        assert(point_number(b, k - 1) != i);
    }
}

proof fn lemma_table_len(b: Seq<u8>, n: nat, k: nat)
    requires
        numbers_in_range(b, n, k as int),
    ensures
        eigen_table(b, n, k).len() == n,
    decreases k,
{
    if k > 0 {
        assert(numbers_in_range(b, n, k - 1)) by {
            assert forall|j: int| 0 <= j < k - 1 implies #[trigger] point_number(b, j) < n by {}
        }
        lemma_table_len(b, n, (k - 1) as nat);
        assert(point_number(b, k - 1) < n);
    }
}

/// A point goes to exactly the strips within whose reach it lies, the ends of
/// the reach included.
pub proof fn law_strips_take_what_is_in_reach(
    edges: Seq<Real64>,
    reach: Seq<(Real64, Real64)>,
    x: Real64,
)
    requires
        reach.len() <= usize::MAX,
    ensures
        selects(
            takers(strips_between(edges, reach), x, reach.len() as int).map_values(
                |i: usize| i as int,
            ),
            |i: int| reach[i].0.at_most(x) && x.at_most(reach[i].1),
            reach.len() as int,
        ),
{
    lemma_takers(edges, reach, x, reach.len() as int);
}

proof fn lemma_takers(edges: Seq<Real64>, reach: Seq<(Real64, Real64)>, x: Real64, n: int)
    requires
        0 <= n <= reach.len() <= usize::MAX,
    ensures
        selects(
            takers(strips_between(edges, reach), x, n).map_values(|i: usize| i as int),
            |i: int| reach[i].0.at_most(x) && x.at_most(reach[i].1),
            n,
        ),
    decreases n,
{
    let strips = strips_between(edges, reach);
    let p = |i: int| reach[i].0.at_most(x) && x.at_most(reach[i].1);
    let r = takers(strips, x, n).map_values(|i: usize| i as int);
    if n > 0 {
        lemma_takers(edges, reach, x, n - 1);
        let before = takers(strips, x, n - 1).map_values(|i: usize| i as int);
        lemma_selects_step(before, p, n - 1);
        if p(n - 1) {
            assert(r =~= before.push(n - 1));
        } else {
            assert(r =~= before);
        }
    } else {
        assert(r =~= Seq::<int>::empty());
    }
}

/// A strip's tags name the points it takes, in the order of the stream, each
/// with whether the strip owns it. The returned sequence gives their places.
pub proof fn law_tags_name_the_taken_points(strip: StripRange, coords: Seq<Real64>, n: nat) -> (at:
    Seq<int>)
    requires
        n <= coords.len() <= u64::MAX,
    ensures
        selects(
            at,
            |i: int| strip.ext_lo.at_most(coords[i]) && coords[i].at_most(strip.ext_hi),
            n as int,
        ),
        stream_tags(strip, coords, n).len() == at.len(),
        forall|j: int|
            0 <= j < at.len() ==> (#[trigger] stream_tags(strip, coords, n)[j]).0 == at[j]
                && stream_tags(strip, coords, n)[j].1 == strip.owns(coords[at[j]]),
    decreases n,
{
    let p = |i: int| strip.ext_lo.at_most(coords[i]) && coords[i].at_most(strip.ext_hi);
    if n == 0 {
        Seq::<int>::empty()
    } else {
        let before = law_tags_name_the_taken_points(strip, coords, (n - 1) as nat);
        lemma_selects_step(before, p, n - 1);
        if p(n - 1) {
            before.push(n - 1)
        } else {
            before
        }
    }
}

/// Stitching sets a point's row to the last one that the strip owns for it.
pub proof fn law_owned_rows_are_stitched(
    table: Seq<EigenRow>,
    tags: Seq<StripTag>,
    rows: Seq<EigenRow>,
    k: int,
    at: int,
)
    requires
        0 <= at < k <= tags.len(),
        tags[at].1,
        at < rows.len(),
        forall|j: int|
            0 <= j < tags.len() && (#[trigger] tags[j]).1 ==> tags[j].0 < table.len(),
        forall|j: int| at < j < k && (#[trigger] tags[j]).1 ==> tags[j].0 != tags[at].0,
    ensures
        stitched(table, tags, rows, k)[tags[at].0 as int] == rows[at],
    decreases k,
{
    lemma_stitched_len(table, tags, rows, k - 1);
    assert(tags[k - 1].1 ==> tags[k - 1].0 < table.len());
    if at < k - 1 {
        law_owned_rows_are_stitched(table, tags, rows, k - 1, at);
        assert(tags[k - 1].1 ==> tags[k - 1].0 != tags[at].0);
    }
}

/// Stitching leaves the row of a point that the strip does not own.
pub proof fn law_other_rows_stay(
    table: Seq<EigenRow>,
    tags: Seq<StripTag>,
    rows: Seq<EigenRow>,
    k: int,
    i: int,
)
    requires
        0 <= k <= tags.len(),
        0 <= i < table.len(),
        forall|j: int|
            0 <= j < tags.len() && (#[trigger] tags[j]).1 ==> tags[j].0 < table.len(),
        forall|j: int| 0 <= j < k && (#[trigger] tags[j]).1 ==> tags[j].0 != i,
    ensures
        stitched(table, tags, rows, k).len() == table.len(),
        stitched(table, tags, rows, k)[i] == table[i],
    decreases k,
{
    lemma_stitched_len(table, tags, rows, k);
    if k > 0 {
        lemma_stitched_len(table, tags, rows, k - 1);
        law_other_rows_stay(table, tags, rows, k - 1, i);
        assert(tags[k - 1].1 ==> tags[k - 1].0 < table.len());
        assert(tags[k - 1].1 ==> tags[k - 1].0 != i);
    }
}

proof fn lemma_stitched_len(
    table: Seq<EigenRow>,
    tags: Seq<StripTag>,
    rows: Seq<EigenRow>,
    k: int,
)
    requires
        k <= tags.len(),
        forall|j: int|
            0 <= j < tags.len() && (#[trigger] tags[j]).1 ==> tags[j].0 < table.len(),
    ensures
        stitched(table, tags, rows, k).len() == table.len(),
    decreases k,
{
    if k > 0 {
        lemma_stitched_len(table, tags, rows, k - 1);
        assert(tags[k - 1].1 ==> tags[k - 1].0 < table.len());
    }
}

/// The whole file is taken at once exactly where all its records fit the budget
/// (a budget as large as the machine can count fits everything). Else there are
/// at least two strips, enough for each to fit, and as many as bytes where there
/// is no budget.
pub proof fn law_plan_keeps_to_the_budget(total_points: int, record_bytes: int, budget: int)
    requires
        0 <= total_points,
        0 <= record_bytes,
        0 <= budget <= usize::MAX,
    ensures
        ({
            let plan = planned(total_points, record_bytes, budget);
            let all = total_points * record_bytes;
            &&& budget < usize::MAX ==> (plan is Whole <==> all <= budget)
            &&& budget == usize::MAX ==> plan is Whole
            &&& plan matches PrepassPlan::Split { n_strips } ==> n_strips >= 2 && (budget > 0
                && all <= usize::MAX ==> n_strips * budget >= all && (n_strips > 2 ==> (n_strips
                - 1) * budget < all))
        }),
{
    let all = total_points * record_bytes;
    assert(0 <= all) by (nonlinear_arith)
        requires
            0 <= total_points,
            0 <= record_bytes,
            all == total_points * record_bytes,
    ;
    let estimated = estimated_size(total_points, record_bytes);
    law_no_strip_too_many(estimated, budget);
    let n = strip_count(estimated, budget);
    if estimated > budget {
        assert(n <= usize::MAX) by {
            if budget > 0 {
                assert(ceil_div(estimated, budget) <= estimated) by (nonlinear_arith)
                    requires
                        0 < budget < estimated,
                        ceil_div(estimated, budget) == if estimated % budget == 0 {
                            estimated / budget
                        } else {
                            estimated / budget + 1
                        },
                ;
            }
        }
        if budget > 0 {
            law_strips_fit_budget(estimated, budget);
        }
    }
}

} // verus!
