//! Confusion counts: how often each class was predicted as each other.

use vstd::prelude::*;

use crate::counting::{lemma_places_step, places, sum_of};

verus! {

/// Counts of (true class, predicted class) pairs.
pub struct ConfusionMatrix {
    rows: Vec<Vec<u64>>,
    total: u64,
}

/// The part that a pair plays for a class.
#[derive(Debug, Clone, Copy, PartialEq, Eq, Structural)]
pub enum Part {
    TruePositive,
    FalsePositive,
    FalseNegative,
    TrueNegative,
}

/// The part that the pair (`truth`, `predicted`) plays for `class`.
pub open spec fn part_of(truth: int, predicted: int, class: int) -> Part {
    if truth == class {
        if predicted == class {
            Part::TruePositive
        } else {
            Part::FalseNegative
        }
    } else if predicted == class {
        Part::FalsePositive
    } else {
        Part::TrueNegative
    }
}

/// The counts of the four parts for one class.
#[derive(Debug, Clone, Copy, PartialEq, Eq, Structural)]
pub struct ClassCounts {
    pub tp: u64,
    pub fp: u64,
    pub tn: u64,
    pub false_negatives: u64,
}

/// How many of the first `n` positions hold this pair.
pub open spec fn pair_count(
    preds: Seq<u8>,
    gts: Seq<u8>,
    truth: int,
    predicted: int,
    n: int,
) -> nat
    decreases n,
{
    if n <= 0 {
        0
    } else {
        pair_count(preds, gts, truth, predicted, n - 1) + if gts[n - 1] == truth && preds[n - 1]
            == predicted {
            1nat
        } else {
            0
        }
    }
}

/// How many of the first `n` positions hold classes below `classes`.
pub open spec fn in_range_count(preds: Seq<u8>, gts: Seq<u8>, classes: int, n: int) -> nat
    decreases n,
{
    if n <= 0 {
        0
    } else {
        in_range_count(preds, gts, classes, n - 1) + if gts[n - 1] < classes && preds[n - 1]
            < classes {
            1nat
        } else {
            0
        }
    }
}

pub proof fn lemma_in_range_at_most(preds: Seq<u8>, gts: Seq<u8>, classes: int, n: int)
    requires
        0 <= n,
    ensures
        in_range_count(preds, gts, classes, n) <= n,
    decreases n,
{
    if n > 0 {
        lemma_in_range_at_most(preds, gts, classes, n - 1);
    }
}

/// The sum of the first `n` counts of a row, of those that play `part` for
/// `class`; of all where `part` is none.
pub open spec fn row_sum(
    row: Seq<u64>,
    truth: int,
    class: int,
    part: Option<Part>,
    n: int,
) -> nat
    decreases n,
{
    if n <= 0 {
        0
    } else {
        row_sum(row, truth, class, part, n - 1) + if part is None || part == Some(
            part_of(truth, n - 1, class),
        ) {
            row[n - 1] as nat
        } else {
            0
        }
    }
}

/// The same over the first `n` rows.
pub open spec fn table_sum(rows: Seq<Seq<u64>>, class: int, part: Option<Part>, n: int) -> nat
    decreases n,
{
    if n <= 0 {
        0
    } else {
        table_sum(rows, class, part, n - 1) + row_sum(
            rows[n - 1],
            n - 1,
            class,
            part,
            rows[n - 1].len() as int,
        )
    }
}

proof fn lemma_row_update(row: Seq<u64>, k: int, v: u64, truth: int, n: int)
    requires
        0 <= k < row.len(),
        0 <= n <= row.len(),
    ensures
        row_sum(row.update(k, v), truth, 0, None, n) == if k < n {
            row_sum(row, truth, 0, None, n) - row[k] + v
        } else {
            row_sum(row, truth, 0, None, n) as int
        },
    decreases n,
{
    if n > 0 {
        lemma_row_update(row, k, v, truth, n - 1);
    }
}

proof fn lemma_table_update(rows: Seq<Seq<u64>>, t: int, k: int, n: int)
    requires
        0 <= t < rows.len(),
        0 <= n <= rows.len(),
        0 <= k < rows[t].len(),
        rows[t][k] < u64::MAX,
    ensures
        table_sum(rows.update(t, rows[t].update(k, (rows[t][k] + 1) as u64)), 0, None, n)
            == table_sum(rows, 0, None, n) + if t < n {
            1nat
        } else {
            0
        },
    decreases n,
{
    if n > 0 {
        lemma_table_update(rows, t, k, n - 1);
        if n - 1 == t {
            lemma_row_update(rows[t], k, (rows[t][k] + 1) as u64, t, rows[t].len() as int);
        }
    }
}

proof fn lemma_row_bounds(row: Seq<u64>, truth: int, k: int, n: int)
    requires
        0 <= k < n <= row.len(),
    ensures
        row[k] <= row_sum(row, truth, 0, None, n),
    decreases n,
{
    if k < n - 1 {
        lemma_row_bounds(row, truth, k, n - 1);
    }
}

proof fn lemma_table_bounds(rows: Seq<Seq<u64>>, t: int, k: int, n: int)
    requires
        0 <= t < n <= rows.len(),
        0 <= k < rows[t].len(),
    ensures
        rows[t][k] <= table_sum(rows, 0, None, n),
    decreases n,
{
    if t < n - 1 {
        lemma_table_bounds(rows, t, k, n - 1);
    } else {
        lemma_row_bounds(rows[t], t, k, rows[t].len() as int);
    }
}

proof fn lemma_row_parts(row: Seq<u64>, truth: int, class: int, n: int)
    requires
        0 <= n <= row.len(),
    ensures
        row_sum(row, truth, class, Some(Part::TruePositive), n) + row_sum(
            row,
            truth,
            class,
            Some(Part::FalsePositive),
            n,
        ) + row_sum(row, truth, class, Some(Part::FalseNegative), n) + row_sum(
            row,
            truth,
            class,
            Some(Part::TrueNegative),
            n,
        ) == row_sum(row, truth, 0, None, n),
    decreases n,
{
    if n > 0 {
        lemma_row_parts(row, truth, class, n - 1);
    }
}

proof fn lemma_table_parts(rows: Seq<Seq<u64>>, class: int, n: int)
    requires
        0 <= n <= rows.len(),
    ensures
        table_sum(rows, class, Some(Part::TruePositive), n) + table_sum(
            rows,
            class,
            Some(Part::FalsePositive),
            n,
        ) + table_sum(rows, class, Some(Part::FalseNegative), n) + table_sum(
            rows,
            class,
            Some(Part::TrueNegative),
            n,
        ) == table_sum(rows, 0, None, n),
    decreases n,
{
    if n > 0 {
        lemma_table_parts(rows, class, n - 1);
        lemma_row_parts(rows[n - 1], n - 1, class, rows[n - 1].len() as int);
    }
}

proof fn lemma_row_grows(row: Seq<u64>, truth: int, class: int, part: Option<Part>, m: int, n: int)
    requires
        0 <= m <= n <= row.len(),
    ensures
        row_sum(row, truth, class, part, m) <= row_sum(row, truth, class, part, n),
    decreases n,
{
    if m < n {
        lemma_row_grows(row, truth, class, part, m, n - 1);
    }
}

proof fn lemma_table_grows(rows: Seq<Seq<u64>>, class: int, part: Option<Part>, m: int, n: int)
    requires
        0 <= m <= n <= rows.len(),
    ensures
        table_sum(rows, class, part, m) <= table_sum(rows, class, part, n),
    decreases n,
{
    if m < n {
        lemma_table_grows(rows, class, part, m, n - 1);
    }
}

fn zero_row(n: usize) -> (r: Vec<u64>)
    ensures
        r@.len() == n,
        forall|i: int| 0 <= i < n ==> #[trigger] r@[i] == 0,
{
    let mut out: Vec<u64> = Vec::new();
    let mut i: usize = 0;
    while i < n
        invariant
            i <= n,
            out@.len() == i,
            forall|k: int| 0 <= k < i ==> #[trigger] out@[k] == 0,
        decreases n - i,
    {
        out.push(0);
        i = i + 1;
    }
    out
}

proof fn lemma_zero_row(row: Seq<u64>, truth: int, n: int)
    requires
        0 <= n <= row.len(),
        forall|i: int| 0 <= i < row.len() ==> #[trigger] row[i] == 0,
    ensures
        row_sum(row, truth, 0, None, n) == 0,
    decreases n,
{
    if n > 0 {
        lemma_zero_row(row, truth, n - 1);
    }
}

/// The rows as sequences.
spec fn seqs(rows: Seq<Vec<u64>>) -> Seq<Seq<u64>> {
    rows.map_values(|r: Vec<u64>| r@)
}

/// A square of counts.
pub open spec fn is_square(rows: Seq<Seq<u64>>) -> bool {
    forall|i: int| 0 <= i < rows.len() ==> (#[trigger] rows[i]).len() == rows.len()
}

/// How many of the pairs counted play `part` for `class`.
pub open spec fn part_total(m: ConfusionMatrix, class: int, part: Part) -> nat {
    table_sum(m@, class, Some(part), m@.len() as int)
}

/// `after` holds the counts of `before` and those of the first `n` pairs.
pub open spec fn counts_added(
    before: Seq<Seq<u64>>,
    after: Seq<Seq<u64>>,
    preds: Seq<u8>,
    gts: Seq<u8>,
    n: int,
) -> bool {
    &&& after.len() == before.len()
    &&& forall|t: int, p: int|
        0 <= t < before.len() && 0 <= p < before.len() ==> #[trigger] after[t][p] == before[t][p]
            + pair_count(preds, gts, t, p, n)
}

impl ConfusionMatrix {
    /// The counts: one row per true class, in it one count per predicted
    /// class.
    pub closed spec fn view(self) -> Seq<Seq<u64>> {
        seqs(self.rows@)
    }

    /// How many pairs were counted.
    pub closed spec fn counted(self) -> nat {
        self.total as nat
    }

    /// A square of counts that add up to the number of pairs counted.
    pub open spec fn wf(self) -> bool {
        &&& is_square(self@)
        &&& table_sum(self@, 0, None, self@.len() as int) == self.counted()
    }

    /// An empty matrix.
    pub fn new(n_classes: usize) -> (r: Self)
        ensures
            r.wf(),
            r@ == Seq::new(n_classes as nat, |t: int| Seq::new(n_classes as nat, |p: int| 0u64)),
            r.counted() == 0,
    {
        let mut rows: Vec<Vec<u64>> = Vec::new();
        let mut i: usize = 0;
        while i < n_classes
            invariant
                i <= n_classes,
                rows@.len() == i,
                forall|k: int|
                    0 <= k < i ==> (#[trigger] rows@[k])@ == Seq::new(
                        n_classes as nat,
                        |p: int| 0u64,
                    ),
                table_sum(seqs(rows@), 0, None, i as int) == 0,
            decreases n_classes - i,
        {
            let ghost before = rows@;
            let row = zero_row(n_classes);
            rows.push(row);
            proof {
                lemma_zero_row(row@, i as int, n_classes as int);
                lemma_same_tables(seqs(before), seqs(rows@), 0, None, i as int);
                assert(row@ =~= Seq::new(n_classes as nat, |p: int| 0u64));
            }
            i = i + 1;
        }
        let r = ConfusionMatrix { rows, total: 0 };
        assert(r@ =~= Seq::new(
            n_classes as nat,
            |t: int| Seq::new(n_classes as nat, |p: int| 0u64),
        ));
        r
    }

    /// Counts the pairs of predicted and true classes; pairs with a class that
    /// the matrix does not have are left out.
    pub fn accumulate(&mut self, preds: &Vec<u8>, gts: &Vec<u8>)
        requires
            old(self).wf(),
            preds@.len() == gts@.len(),
            old(self).counted() + preds@.len() <= u64::MAX,
        ensures
            final(self).wf(),
            counts_added(old(self)@, final(self)@, preds@, gts@, preds@.len() as int),
            final(self).counted() == old(self).counted() + in_range_count(
                preds@,
                gts@,
                old(self)@.len() as int,
                preds@.len() as int,
            ),
    {
        let n: usize = self.rows.len();
        let ghost start = self@;
        let mut i: usize = 0;
        while i < preds.len()
            invariant
                i <= preds@.len() == gts@.len(),
                start == old(self)@,
                n == start.len() == self.rows@.len(),
                self.wf(),
                old(self).total + preds@.len() <= u64::MAX,
                self.total == old(self).total + in_range_count(preds@, gts@, n as int, i as int),
                counts_added(start, self@, preds@, gts@, i as int),
            decreases preds@.len() - i,
        {
            let p: usize = preds[i] as usize;
            let t: usize = gts[i] as usize;
            proof {
                lemma_in_range_at_most(preds@, gts@, n as int, i as int);
            }
            let ghost before = self@;
            if t < n && p < n {
                proof {
                    assert(before[t as int].len() == n);
                    lemma_table_bounds(before, t as int, p as int, n as int);
                }
                let v: u64 = self.rows[t][p] + 1;
                self.rows[t][p] = v;
                self.total = self.total + 1;
                proof {
                    lemma_table_update(before, t as int, p as int, n as int);
                    assert(self@ =~= before.update(
                        t as int,
                        before[t as int].update(p as int, v),
                    ));
                }
            }
            proof {
                assert forall|a: int, b: int| 0 <= a < n && 0 <= b < n implies #[trigger] self@[a][b]
                    == start[a][b] + pair_count(preds@, gts@, a, b, i as int + 1) by {
                    assert(before[a].len() == n);
                    assert(before[a][b] == start[a][b] + pair_count(
                        preds@,
                        gts@,
                        a,
                        b,
                        i as int,
                    ));
                }
            }
            i = i + 1;
        }
    }

    /// How often `truth` was predicted as `predicted`.
    pub fn get(&self, truth: usize, predicted: usize) -> (r: u64)
        requires
            self.wf(),
            truth < self@.len(),
            predicted < self@.len(),
        ensures
            r == self@[truth as int][predicted as int],
    {
        assert(self@[truth as int].len() == self@.len());
        self.rows[truth][predicted]
    }

    /// The counts of the four parts for one class.
    pub fn class_counts(&self, class: usize) -> (r: ClassCounts)
        requires
            self.wf(),
        ensures
            r.tp == part_total(*self, class as int, Part::TruePositive),
            r.fp == part_total(*self, class as int, Part::FalsePositive),
            r.tn == part_total(*self, class as int, Part::TrueNegative),
            r.false_negatives == part_total(*self, class as int, Part::FalseNegative),
    {
        let n: usize = self.rows.len();
        let ghost c = class as int;
        let mut tp: u64 = 0;
        let mut fp: u64 = 0;
        let mut tn: u64 = 0;
        let mut false_negatives: u64 = 0;
        let mut t: usize = 0;
        while t < n
            invariant
                t <= n == self.rows@.len() == self@.len(),
                c == class,
                self.wf(),
                tp == table_sum(self@, c, Some(Part::TruePositive), t as int),
                fp == table_sum(self@, c, Some(Part::FalsePositive), t as int),
                tn == table_sum(self@, c, Some(Part::TrueNegative), t as int),
                false_negatives == table_sum(self@, c, Some(Part::FalseNegative), t as int),
            decreases n - t,
        {
            let row = &self.rows[t];
            let ghost (tp0, fp0, tn0, fn0) = (tp, fp, tn, false_negatives);
            proof {
                assert(self@[t as int] == row@);
                assert(row@.len() == n);
                lemma_table_parts(self@, c, t as int);
                lemma_table_grows(self@, 0, None, t as int + 1, n as int);
                assert(tp0 + fp0 + tn0 + fn0 + row_sum(row@, t as int, 0, None, n as int)
                    == table_sum(self@, 0, None, t as int + 1));
            }
            let mut p: usize = 0;
            while p < n
                invariant
                    t < n,
                    p <= n,
                    c == class,
                    row@.len() == n,
                    tp0 + fp0 + tn0 + fn0 + row_sum(row@, t as int, 0, None, n as int)
                        <= u64::MAX,
                    tp == tp0 + row_sum(row@, t as int, c, Some(Part::TruePositive), p as int),
                    fp == fp0 + row_sum(row@, t as int, c, Some(Part::FalsePositive), p as int),
                    tn == tn0 + row_sum(row@, t as int, c, Some(Part::TrueNegative), p as int),
                    false_negatives == fn0 + row_sum(
                        row@,
                        t as int,
                        c,
                        Some(Part::FalseNegative),
                        p as int,
                    ),
                decreases n - p,
            {
                let v: u64 = row[p];
                proof {
                    lemma_row_parts(row@, t as int, c, p as int + 1);
                    lemma_row_grows(row@, t as int, 0, None, p as int + 1, n as int);
                }
                if t == class {
                    if p == class {
                        tp = tp + v;
                    } else {
                        false_negatives = false_negatives + v;
                    }
                } else if p == class {
                    fp = fp + v;
                } else {
                    tn = tn + v;
                }
                p = p + 1;
            }
            t = t + 1;
        }
        ClassCounts { tp, fp, tn, false_negatives }
    }
}

proof fn lemma_same_tables(
    a: Seq<Seq<u64>>,
    b: Seq<Seq<u64>>,
    class: int,
    part: Option<Part>,
    n: int,
)
    requires
        0 <= n <= a.len(),
        n <= b.len(),
        forall|i: int| 0 <= i < n ==> #[trigger] a[i] == b[i],
    ensures
        table_sum(a, class, part, n) == table_sum(b, class, part, n),
    decreases n,
{
    if n > 0 {
        lemma_same_tables(a, b, class, part, n - 1);
        assert(a[n - 1] == b[n - 1]);
    }
}

/// Every pair counted plays exactly one part for each class.
pub proof fn law_parts_add_up(m: ConfusionMatrix, class: int)
    requires
        m.wf(),
    ensures
        part_total(m, class, Part::TruePositive) + part_total(m, class, Part::FalsePositive)
            + part_total(m, class, Part::FalseNegative) + part_total(m, class, Part::TrueNegative)
            == m.counted(),
{
    lemma_table_parts(m@, class, m@.len() as int);
}

// ── What the counts are ─────────────────────────────────────────────────────

/// The counts of one row.
pub open spec fn row_entries(rows: Seq<Seq<u64>>, t: int, n: int) -> Seq<int> {
    Seq::new(n as nat, |p: int| rows[t][p] as int)
}

/// The counts of one column, over the first `n` rows.
pub open spec fn column_entries(rows: Seq<Seq<u64>>, p: int, n: int) -> Seq<int> {
    Seq::new(n as nat, |t: int| rows[t][p] as int)
}

proof fn lemma_row_part(row: Seq<u64>, truth: int, class: int, n: int)
    requires
        0 <= n <= row.len(),
        0 <= class,
    ensures
        row_sum(row, truth, class, Some(Part::TruePositive), n) == if truth == class && class < n {
            row[class] as int
        } else {
            0
        },
        row_sum(row, truth, class, Some(Part::FalsePositive), n) == if truth != class && class < n {
            row[class] as int
        } else {
            0
        },
        row_sum(row, truth, class, Some(Part::TruePositive), n) + row_sum(
            row,
            truth,
            class,
            Some(Part::FalseNegative),
            n,
        ) == if truth == class {
            sum_of(Seq::new(n as nat, |p: int| row[p] as int))
        } else {
            0
        },
    decreases n,
{
    let all = Seq::new(n as nat, |p: int| row[p] as int);
    if n > 0 {
        lemma_row_part(row, truth, class, n - 1);
        assert(all.drop_last() =~= Seq::new((n - 1) as nat, |p: int| row[p] as int));
    }
}

proof fn lemma_table_part(rows: Seq<Seq<u64>>, class: int, n: int)
    requires
        is_square(rows),
        0 <= n <= rows.len(),
        0 <= class < rows.len(),
    ensures
        table_sum(rows, class, Some(Part::TruePositive), n) == if class < n {
            rows[class][class] as int
        } else {
            0
        },
        table_sum(rows, class, Some(Part::TruePositive), n) + table_sum(
            rows,
            class,
            Some(Part::FalsePositive),
            n,
        ) == sum_of(column_entries(rows, class, n)),
        table_sum(rows, class, Some(Part::TruePositive), n) + table_sum(
            rows,
            class,
            Some(Part::FalseNegative),
            n,
        ) == if class < n {
            sum_of(row_entries(rows, class, rows.len() as int))
        } else {
            0
        },
    decreases n,
{
    if n > 0 {
        lemma_table_part(rows, class, n - 1);
        assert(rows[n - 1].len() == rows.len());
        lemma_row_part(rows[n - 1], n - 1, class, rows.len() as int);
        assert(column_entries(rows, class, n).drop_last() =~= column_entries(rows, class, n - 1));
        if n - 1 == class {
            assert(row_entries(rows, class, rows.len() as int) =~= Seq::new(
                rows.len(),
                |p: int| rows[class][p] as int,
            ));
        }
    }
}

/// What was predicted as a class is its column, what is of a class is its row,
/// and what is both is the entry on the diagonal.
pub proof fn law_class_counts_are_margins(m: ConfusionMatrix, class: int)
    requires
        m.wf(),
        0 <= class < m@.len(),
    ensures
        part_total(m, class, Part::TruePositive) == m@[class][class],
        part_total(m, class, Part::TruePositive) + part_total(m, class, Part::FalsePositive)
            == sum_of(Seq::new(m@.len(), |t: int| m@[t][class] as int)),
        part_total(m, class, Part::TruePositive) + part_total(m, class, Part::FalseNegative)
            == sum_of(Seq::new(m@.len(), |p: int| m@[class][p] as int)),
        part_total(m, class, Part::TruePositive) + part_total(m, class, Part::FalsePositive)
            + part_total(m, class, Part::FalseNegative) + part_total(m, class, Part::TrueNegative)
            == m.counted(),
{
    let n = m@.len() as int;
    lemma_table_part(m@, class, n);
    lemma_table_parts(m@, class, n);
    assert(column_entries(m@, class, n) =~= Seq::new(m@.len(), |t: int| m@[t][class] as int));
    assert(row_entries(m@, class, n) =~= Seq::new(m@.len(), |p: int| m@[class][p] as int));
}

/// Counting pairs raises the entry of a true and a predicted class by the
/// number of places that hold just these two, and nothing else.
pub proof fn law_pairs_are_counted(
    before: Seq<Seq<u64>>,
    after: Seq<Seq<u64>>,
    preds: Seq<u8>,
    gts: Seq<u8>,
    truth: int,
    predicted: int,
)
    requires
        preds.len() == gts.len(),
        counts_added(before, after, preds, gts, preds.len() as int),
        0 <= truth < before.len(),
        0 <= predicted < before.len(),
    ensures
        after.len() == before.len(),
        after[truth][predicted] == before[truth][predicted] + places(
            |i: int| gts[i] == truth && preds[i] == predicted,
            preds.len() as int,
        ).len(),
{
    lemma_pair_places(preds, gts, truth, predicted, preds.len() as int);
}

proof fn lemma_pair_places(
    preds: Seq<u8>,
    gts: Seq<u8>,
    truth: int,
    predicted: int,
    n: int,
)
    requires
        0 <= n <= preds.len(),
        preds.len() == gts.len(),
    ensures
        pair_count(preds, gts, truth, predicted, n) == places(
            |i: int| gts[i] == truth && preds[i] == predicted,
            n,
        ).len(),
    decreases n,
{
    lemma_places_step(|i: int| gts[i] == truth && preds[i] == predicted, n);
    if n > 0 {
        lemma_pair_places(preds, gts, truth, predicted, n - 1);
    }
}

/// The pairs that are counted are those of which the matrix has both classes.
pub proof fn law_in_range_pairs(preds: Seq<u8>, gts: Seq<u8>, classes: int, n: int)
    requires
        0 <= n <= preds.len(),
        preds.len() == gts.len(),
    ensures
        in_range_count(preds, gts, classes, n) == places(
            |i: int| gts[i] < classes && preds[i] < classes,
            n,
        ).len(),
    decreases n,
{
    lemma_places_step(|i: int| gts[i] < classes && preds[i] < classes, n);
    if n > 0 {
        law_in_range_pairs(preds, gts, classes, n - 1);
    }
}

} // verus!
