//! Scoring of a model on labelled blocks.

use vstd::prelude::*;

use crate::counting::{lemma_places_step, lemma_selects_step, places, selects};
use crate::error::{pipeline_text, shows, ClassifierError, ShowModel};
use crate::ieee::{Real32, Real64};
use crate::model::argmax::{argmax, argmax_index};
use crate::model::confusion::{
    counts_added, in_range_count, law_pairs_are_counted, lemma_in_range_at_most, ClassCounts,
    ConfusionMatrix,
};
use crate::model::inference::{asprs_code, asprs_of};
use crate::text::{
    concat2, concat3, concat5, decimal, decimal_text, law_a_further_part, separated,
};

verus! {

// ── Predictions ─────────────────────────────────────────────────────────────

/// A class as a label byte; 255 where it does not fit.
pub open spec fn class_byte(class: int) -> u8 {
    if class <= 255 {
        class as u8
    } else {
        255
    }
}

pub fn label_byte(class: usize) -> (r: u8)
    ensures
        r == class_byte(class as int),
{
    if class <= 255 {
        class as u8
    } else {
        255
    }
}

/// The class with the highest logit, the last of equal ones.
pub fn argmax_row(row: &Vec<Real32>) -> (r: u8)
    ensures
        r == class_byte(argmax(row@, row@.len() as int)),
{
    label_byte(argmax_index(row))
}

/// Predicted and true classes of points, and whether each point lies near the
/// edge of its block.
pub struct Scored {
    pub preds: Vec<u8>,
    pub gts: Vec<u8>,
    pub bands: Vec<bool>,
}

/// One scored point.
#[verifier::ext_equal]
pub ghost struct ScoredPoint {
    pub pred: u8,
    pub gt: u8,
    pub band: bool,
}

impl Scored {
    pub open spec fn wf(self) -> bool {
        self.preds@.len() == self.gts@.len() == self.bands@.len()
    }

    /// The scored points in order.
    pub open spec fn view(self) -> Seq<ScoredPoint> {
        Seq::new(
            self.preds@.len(),
            |i: int|
                ScoredPoint { pred: self.preds@[i], gt: self.gts@[i], band: self.bands@[i] },
        )
    }
}

/// The scored ones of the first `n` points: those that got a label.
pub open spec fn scored_points(
    labels: Seq<Option<usize>>,
    gts: Seq<u8>,
    bands: Seq<bool>,
    n: int,
) -> Seq<ScoredPoint>
    decreases n,
{
    if n <= 0 {
        Seq::empty()
    } else {
        let before = scored_points(labels, gts, bands, n - 1);
        match labels[n - 1] {
            Some(class) => before.push(
                ScoredPoint {
                    pred: class_byte(class as int),
                    gt: gts[n - 1],
                    band: bands[n - 1],
                },
            ),
            None => before,
        }
    }
}

/// The points of a block that got a label; a point that no block voted on is
/// left out.
pub fn score_points(labels: &Vec<Option<usize>>, gts: &Vec<u8>, bands: &Vec<bool>) -> (r: Scored)
    requires
        labels@.len() == gts@.len() == bands@.len(),
    ensures
        r.wf(),
        r@ == scored_points(labels@, gts@, bands@, labels@.len() as int),
{
    let mut out = Scored { preds: Vec::new(), gts: Vec::new(), bands: Vec::new() };
    let mut i: usize = 0;
    while i < labels.len()
        invariant
            i <= labels@.len() == gts@.len() == bands@.len(),
            out.wf(),
            out@ =~= scored_points(labels@, gts@, bands@, i as int),
        decreases labels@.len() - i,
    {
        match labels[i] {
            Some(class) => {
                out.preds.push(label_byte(class));
                out.gts.push(gts[i]);
                out.bands.push(bands[i]);
            },
            None => {},
        }
        i = i + 1;
    }
    out
}

/// The scored points near the edges of their blocks, or the others.
pub open spec fn in_band(points: Seq<ScoredPoint>, band: bool) -> Seq<ScoredPoint> {
    points.filter(|p: ScoredPoint| p.band == band)
}

/// The scored points near the edges of their blocks, or the others.
pub fn select_band(s: &Scored, band: bool) -> (r: Scored)
    requires
        s.wf(),
    ensures
        r.wf(),
        r@ == in_band(s@, band),
{
    let ghost keep = |p: ScoredPoint| p.band == band;
    let mut out = Scored { preds: Vec::new(), gts: Vec::new(), bands: Vec::new() };
    let mut i: usize = 0;
    assert(s@.take(0).filter(keep) =~= Seq::empty()) by {
        reveal(Seq::filter);
    }
    while i < s.preds.len()
        invariant
            i <= s.preds@.len(),
            s.wf(),
            out.wf(),
            keep == (|p: ScoredPoint| p.band == band),
            out@ =~= s@.take(i as int).filter(keep),
        decreases s.preds@.len() - i,
    {
        if s.bands[i] == band {
            out.preds.push(s.preds[i]);
            out.gts.push(s.gts[i]);
            out.bands.push(s.bands[i]);
        }
        proof {
            let t = s@.take(i + 1);
            assert(t.drop_last() =~= s@.take(i as int));
            assert(t.last() == s@[i as int]);
            reveal(Seq::filter);
            assert(out@ =~= t.filter(keep));
        }
        i = i + 1;
    }
    assert(s@.take(i as int) =~= s@);
    out
}

/// Every scored point is either near an edge or not.
pub proof fn law_bands_part_the_points(points: Seq<ScoredPoint>)
    ensures
        in_band(points, true).len() + in_band(points, false).len() == points.len(),
    decreases points.len(),
{
    reveal(Seq::filter);
    if points.len() > 0 {
        law_bands_part_the_points(points.drop_last());
    }
}

/// Numbers of blocks and points that were scored.
#[derive(Debug, Clone, Copy, PartialEq, Eq, Structural)]
pub struct FusedStats {
    pub n_blocks: usize,
    pub n_points: u64,
    pub band_points: u64,
    pub interior_points: u64,
}

/// The matrices of a fused evaluation: of all points, of those near the edges
/// of their blocks, and of the others.
pub struct FusedScores {
    pub full: ConfusionMatrix,
    pub band: ConfusionMatrix,
    pub interior: ConfusionMatrix,
    pub stats: FusedStats,
}

impl FusedScores {
    /// The matrices are well formed and none counts more points than were
    /// scored.
    pub open spec fn wf(self) -> bool {
        &&& self.full.wf() && self.band.wf() && self.interior.wf()
        &&& self.full.counted() <= self.stats.n_points
        &&& self.band.counted() <= self.stats.band_points
        &&& self.interior.counted() <= self.stats.interior_points
        &&& self.stats.band_points + self.stats.interior_points == self.stats.n_points
    }

    pub fn new(n_classes: usize) -> (r: Self)
        ensures
            r.wf(),
            r.full@ == Seq::new(
                n_classes as nat,
                |t: int| Seq::new(n_classes as nat, |p: int| 0u64),
            ),
            r.band@ == r.full@,
            r.interior@ == r.full@,
            r.stats == (FusedStats {
                n_blocks: 0,
                n_points: 0,
                band_points: 0,
                interior_points: 0,
            }),
    {
        FusedScores {
            full: ConfusionMatrix::new(n_classes),
            band: ConfusionMatrix::new(n_classes),
            interior: ConfusionMatrix::new(n_classes),
            stats: FusedStats { n_blocks: 0, n_points: 0, band_points: 0, interior_points: 0 },
        }
    }

    /// Counts the scored points of a block.
    pub fn add_block(&mut self, s: &Scored)
        requires
            old(self).wf(),
            s.wf(),
            old(self).stats.n_points + s.preds@.len() <= u64::MAX,
            old(self).stats.n_blocks < usize::MAX,
        ensures
            final(self).wf(),
            final(self).stats.n_blocks == old(self).stats.n_blocks + 1,
            final(self).stats.n_points == old(self).stats.n_points + s@.len(),
            final(self).stats.band_points == old(self).stats.band_points + in_band(
                s@,
                true,
            ).len(),
            final(self).stats.interior_points == old(self).stats.interior_points + in_band(
                s@,
                false,
            ).len(),
            points_counted(old(self).full, final(self).full, s@),
            points_counted(old(self).band, final(self).band, in_band(s@, true)),
            points_counted(old(self).interior, final(self).interior, in_band(s@, false)),
            block_added(*old(self), *final(self), s@),
    {
        let near = select_band(s, true);
        let inner = select_band(s, false);
        proof {
            law_bands_part_the_points(s@);
        }
        self.full.accumulate(&s.preds, &s.gts);
        self.band.accumulate(&near.preds, &near.gts);
        self.interior.accumulate(&inner.preds, &inner.gts);
        self.stats = FusedStats {
            n_blocks: self.stats.n_blocks + 1,
            n_points: self.stats.n_points + s.preds.len() as u64,
            band_points: self.stats.band_points + near.preds.len() as u64,
            interior_points: self.stats.interior_points + inner.preds.len() as u64,
        };
        proof {
            lemma_columns(*s);
            lemma_columns(near);
            lemma_columns(inner);
            lemma_in_range_at_most(s.preds@, s.gts@, self.full@.len() as int, s.preds@.len() as int);
            lemma_in_range_at_most(
                near.preds@,
                near.gts@,
                self.band@.len() as int,
                near.preds@.len() as int,
            );
            lemma_in_range_at_most(
                inner.preds@,
                inner.gts@,
                self.interior@.len() as int,
                inner.preds@.len() as int,
            );
        }
    }
}

/// The scores after those of a block's points were added.
pub open spec fn block_added(
    before: FusedScores,
    after: FusedScores,
    points: Seq<ScoredPoint>,
) -> bool {
    let near = in_band(points, true);
    let inner = in_band(points, false);
    &&& after.stats.n_blocks == before.stats.n_blocks + 1
    &&& after.stats.n_points == before.stats.n_points + points.len()
    &&& after.stats.band_points == before.stats.band_points + near.len()
    &&& after.stats.interior_points == before.stats.interior_points + inner.len()
    &&& points_counted(before.full, after.full, points)
    &&& points_counted(before.band, after.band, near)
    &&& points_counted(before.interior, after.interior, inner)
}

/// The predicted classes.
pub open spec fn pred_column(points: Seq<ScoredPoint>) -> Seq<u8> {
    points.map_values(|p: ScoredPoint| p.pred)
}

/// The true classes.
pub open spec fn gt_column(points: Seq<ScoredPoint>) -> Seq<u8> {
    points.map_values(|p: ScoredPoint| p.gt)
}

/// `after` counts the points of `before` and these.
pub open spec fn points_counted(
    before: ConfusionMatrix,
    after: ConfusionMatrix,
    points: Seq<ScoredPoint>,
) -> bool {
    &&& after.wf()
    &&& counts_added(
        before@,
        after@,
        pred_column(points),
        gt_column(points),
        points.len() as int,
    )
    &&& after.counted() == before.counted() + in_range_count(
        pred_column(points),
        gt_column(points),
        before@.len() as int,
        points.len() as int,
    )
}

proof fn lemma_columns(s: Scored)
    requires
        s.wf(),
    ensures
        pred_column(s@) == s.preds@,
        gt_column(s@) == s.gts@,
{
    assert(pred_column(s@) =~= s.preds@);
    assert(gt_column(s@) =~= s.gts@);
}

// ── Class counts and label maps ─────────────────────────────────────────────

pub open spec fn no_blocks_message(fused: bool) -> Seq<char> {
    if fused {
        "evaluate: no blocks found in the supplied --data-dir"@
    } else {
        "evaluate: no blocks found in the supplied --data-dir(s)"@
    }
}

/// Fails where there is nothing to score.
pub fn require_blocks(n_blocks: usize, fused: bool) -> (r: Result<(), ClassifierError>)
    ensures
        match r {
            Ok(_) => n_blocks > 0,
            Err(e) => n_blocks == 0 && e.text() == pipeline_text(no_blocks_message(fused)),
        },
{
    if n_blocks > 0 {
        Ok(())
    } else if fused {
        Err(
            ClassifierError::Pipeline(
                "evaluate: no blocks found in the supplied --data-dir".to_owned(),
            ),
        )
    } else {
        Err(
            ClassifierError::Pipeline(
                "evaluate: no blocks found in the supplied --data-dir(s)".to_owned(),
            ),
        )
    }
}

pub open spec fn count_mismatch(model_n: nat, data_n: nat) -> Seq<char> {
    "evaluate: model has "@ + decimal(model_n) + " classes but the data directory declares "@
        + decimal(data_n)
        + " classes. The model and the evaluation data must use the same label map / class count."@
}

pub open spec fn request_mismatch(requested: nat, model_n: nat) -> Seq<char> {
    "evaluate: --n-classes="@ + decimal(requested)
        + " disagrees with the model/data class count ("@ + decimal(model_n)
        + "). Omit --n-classes to use the derived value."@
}

/// An optional code, as a debug print shows it.
pub open spec fn shown_code(code: Option<u8>) -> Seq<char> {
    match code {
        Some(c) => "Some("@ + decimal(c as nat) + ")"@,
        None => "None"@,
    }
}

pub open spec fn map_mismatch(idx: nat, model_code: Option<u8>, expected: u8) -> Seq<char> {
    "evaluate: label map mismatch at model class index "@ + decimal(idx)
        + " — the model maps this index to ASPRS code "@ + shown_code(model_code)
        + ", but the evaluation data's label map maps it to ASPRS code "@ + decimal(
        expected as nat,
    )
        + ". The model and the evaluation data must have been preprocessed with the exact same --label-map, not merely the same class count."@
}

/// The code that a map has at this position.
pub open spec fn code_at(map: Seq<u8>, idx: int) -> Option<u8> {
    if 0 <= idx < map.len() {
        Some(map[idx])
    } else {
        None
    }
}

/// The first of the positions from `from` on where the model's map does not
/// have the code of the data's map.
pub open spec fn first_mismatch(model_map: Seq<u8>, derived: Seq<u8>, from: int) -> Option<int>
    decreases derived.len() - from,
{
    if from >= derived.len() {
        None
    } else if code_at(model_map, from) != Some(derived[from]) {
        Some(from)
    } else {
        first_mismatch(model_map, derived, from + 1)
    }
}

/// What model and data are reconciled to: the class count, or what they
/// disagree on. `derived` is the data's own map from class index to code.
pub open spec fn reconciles(
    r: Result<usize, ClassifierError>,
    model_n: usize,
    model_map: Seq<u8>,
    data_n: usize,
    derived: Result<Vec<u8>, ClassifierError>,
    requested: Option<usize>,
) -> bool {
    if model_n != data_n {
        r matches Err(e) && e.text() == pipeline_text(
            count_mismatch(model_n as nat, data_n as nat),
        )
    } else if requested is Some && requested->0 != model_n {
        r matches Err(e) && e.text() == pipeline_text(
            request_mismatch(requested->0 as nat, model_n as nat),
        )
    } else {
        match derived {
            Err(d) => r == Err::<usize, ClassifierError>(d),
            Ok(d) => match first_mismatch(model_map, d@, 0) {
                Some(idx) => r matches Err(e) && e.text() == pipeline_text(
                    map_mismatch(idx as nat, code_at(model_map, idx), d@[idx]),
                ),
                None => r == Ok::<usize, ClassifierError>(model_n),
            },
        }
    }
}

fn show_code(code: Option<u8>) -> (r: String)
    ensures
        r@ == shown_code(code),
{
    match code {
        Some(c) => {
            let t = decimal_text(c as u64);
            concat3("Some(", t.as_str(), ")")
        },
        None => "None".to_owned(),
    }
}

fn map_mismatch_error(idx: usize, model_code: Option<u8>, expected: u8) -> (r: ClassifierError)
    ensures
        r.text() == pipeline_text(map_mismatch(idx as nat, model_code, expected)),
{
    let i = decimal_text(idx as u64);
    let m = show_code(model_code);
    let e = decimal_text(expected as u64);
    let mut text = concat5(
        "evaluate: label map mismatch at model class index ",
        i.as_str(),
        " — the model maps this index to ASPRS code ",
        m.as_str(),
        ", but the evaluation data's label map maps it to ASPRS code ",
    );
    text.append(e.as_str());
    text.append(
        ". The model and the evaluation data must have been preprocessed with the exact same --label-map, not merely the same class count.",
    );
    ClassifierError::Pipeline(text)
}

/// Reconciles the class count and the label map of the model with those of the
/// data and with the count asked for, if any. Equal counts alone are not
/// enough: each class must stand for the same code.
pub fn reconcile_n_classes(
    model_n: usize,
    model_map: &Vec<u8>,
    data_n: usize,
    derived: Result<Vec<u8>, ClassifierError>,
    requested: Option<usize>,
) -> (r: Result<usize, ClassifierError>)
    ensures
        reconciles(r, model_n, model_map@, data_n, derived, requested),
{
    if model_n != data_n {
        let a = decimal_text(model_n as u64);
        let b = decimal_text(data_n as u64);
        return Err(
            ClassifierError::Pipeline(
                concat5(
                    "evaluate: model has ",
                    a.as_str(),
                    " classes but the data directory declares ",
                    b.as_str(),
                    " classes. The model and the evaluation data must use the same label map / class count.",
                ),
            ),
        );
    }
    if let Some(n) = requested {
        if n != model_n {
            let a = decimal_text(n as u64);
            let b = decimal_text(model_n as u64);
            return Err(
                ClassifierError::Pipeline(
                    concat5(
                        "evaluate: --n-classes=",
                        a.as_str(),
                        " disagrees with the model/data class count (",
                        b.as_str(),
                        "). Omit --n-classes to use the derived value.",
                    ),
                ),
            );
        }
    }
    let d: Vec<u8> = match derived {
        Ok(d) => d,
        Err(e) => {
            return Err(e);
        },
    };
    let mut i: usize = 0;
    while i < d.len()
        invariant
            i <= d@.len(),
            model_n == data_n,
            requested is None || requested->0 == model_n,
            derived == Ok::<Vec<u8>, ClassifierError>(d),
            first_mismatch(model_map@, d@, 0) == first_mismatch(model_map@, d@, i as int),
        decreases d@.len() - i,
    {
        let code: Option<u8> = if i < model_map.len() {
            Some(model_map[i])
        } else {
            None
        };
        let same: bool = match code {
            Some(c) => c == d[i],
            None => false,
        };
        if !same {
            return Err(map_mismatch_error(i, code, d[i]));
        }
        i = i + 1;
    }
    Ok(model_n)
}

/// Where model and data are reconciled, each of the data's classes stands for
/// the same code in the model.
pub proof fn law_reconciled_maps_agree(
    model_n: usize,
    model_map: Seq<u8>,
    data_n: usize,
    derived: Result<Vec<u8>, ClassifierError>,
    requested: Option<usize>,
)
    requires
        reconciles(
            Ok::<usize, ClassifierError>(model_n),
            model_n,
            model_map,
            data_n,
            derived,
            requested,
        ),
    ensures
        model_n == data_n,
        requested matches Some(n) ==> n == model_n,
        derived matches Ok(d) && forall|i: int|
            0 <= i < d@.len() ==> code_at(model_map, i) == Some(#[trigger] d@[i]),
{
    if let Ok(d) = derived {
        lemma_no_mismatch(model_map, d@, 0);
    }
}

proof fn lemma_no_mismatch(model_map: Seq<u8>, derived: Seq<u8>, from: int)
    requires
        0 <= from,
        first_mismatch(model_map, derived, from) is None,
    ensures
        forall|i: int|
            from <= i < derived.len() ==> code_at(model_map, i) == Some(#[trigger] derived[i]),
    decreases derived.len() - from,
{
    if from < derived.len() {
        lemma_no_mismatch(model_map, derived, from + 1);
    }
}

// ── Grid and radius ─────────────────────────────────────────────────────────

/// Why a data directory has no usable grid for fusion.
#[derive(Debug, Clone, Copy, PartialEq, Eq, Structural)]
pub enum FusedGridFault {
    /// Two blocks have different sizes.
    MixedSizes { first: Real64, other: Real64 },
    /// There are no blocks.
    NoBlocks,
    /// The blocks have no size.
    BlockSize { block_size: Real64 },
    /// The radius is not finite, negative, or more than half the block size.
    Radius { max_radius: Real64, radius: Real64 },
}

impl FusedGridFault {
    /// What the user is told.
    pub open spec fn message(self, m: ShowModel) -> Seq<char> {
        match self {
            FusedGridFault::MixedSizes { first, other } =>
                "evaluate: mixed block sizes within one data dir ("@ + m(first) + " vs "@ + m(other)
                + "); --fused-eval requires a uniform grid"@,
            FusedGridFault::NoBlocks => "evaluate: no blocks to derive block_size from"@,
            FusedGridFault::BlockSize { block_size } => "evaluate: non-positive block_size ("@ + m(
                block_size,
            ) + ") in data dir"@,
            FusedGridFault::Radius { max_radius, radius } =>
                "evaluate: --fusion-radius must be finite and within [0, block_size/2 (="@ + m(
                max_radius,
            ) + ")], got "@ + m(radius),
        }
    }

    fn error<S: Fn(Real64) -> String>(self, show: S) -> (e: ClassifierError)
        requires
            forall|x: Real64| #[trigger] call_requires(show, (x,)),
        ensures
            e is Pipeline,
            forall|m: ShowModel| #[trigger]
                shows(show, m) ==> e.text() == pipeline_text(self.message(m)),
    {
        ClassifierError::Pipeline(
            match self {
                FusedGridFault::MixedSizes { first, other } => concat5(
                    "evaluate: mixed block sizes within one data dir (",
                    show(first).as_str(),
                    " vs ",
                    show(other).as_str(),
                    "); --fused-eval requires a uniform grid",
                ),
                FusedGridFault::NoBlocks =>
                    "evaluate: no blocks to derive block_size from".to_owned(),
                FusedGridFault::BlockSize { block_size } => concat3(
                    "evaluate: non-positive block_size (",
                    show(block_size).as_str(),
                    ") in data dir",
                ),
                FusedGridFault::Radius { max_radius, radius } => concat2(
                    concat3(
                        "evaluate: --fusion-radius must be finite and within [0, block_size/2 (=",
                        show(max_radius).as_str(),
                        ")], got ",
                    ).as_str(),
                    show(radius).as_str(),
                ),
            },
        )
    }
}

/// When the caller takes two block sizes for different.
pub type SizesModel = spec_fn(Real64, Real64) -> bool;

/// `f` compares sizes as `m` says.
pub open spec fn compares_sizes<F: Fn(Real64, Real64) -> bool>(f: F, m: SizesModel) -> bool {
    forall|a: Real64, b: Real64, d: bool| #[trigger] call_ensures(f, (a, b), d) ==> d == m(a, b)
}

/// The first of the sizes from `from` on that differs from `first`.
pub open spec fn first_other(
    sizes: Seq<Real64>,
    first: Real64,
    m: SizesModel,
    from: int,
) -> Option<Real64>
    decreases sizes.len() - from,
{
    if from >= sizes.len() {
        None
    } else if m(first, sizes[from]) {
        Some(sizes[from])
    } else {
        first_other(sizes, first, m, from + 1)
    }
}

/// The radius in effect: the one given, or the default.
pub open spec fn fused_radius(explicit: Option<Real64>, default_radius: Real64) -> Real64 {
    match explicit {
        Some(r) => r,
        None => default_radius,
    }
}

/// The radius is finite, not negative and at most half the block size.
pub open spec fn radius_fits(radius: Real64, block_size: Real64) -> bool {
    &&& radius.finite()
    &&& !radius.less(Real64 { bits: 0 })
    &&& !block_size.halved().less(radius)
}

/// The block size and the radius in effect, or why there are none.
pub open spec fn grid_outcome(
    sizes: Seq<Real64>,
    m: SizesModel,
    explicit: Option<Real64>,
    default_radius: Real64,
) -> Result<(Real64, Real64), FusedGridFault> {
    if sizes.len() == 0 {
        Err(FusedGridFault::NoBlocks)
    } else if first_other(sizes, sizes[0], m, 1) is Some {
        Err(
            FusedGridFault::MixedSizes {
                first: sizes[0],
                other: first_other(sizes, sizes[0], m, 1)->0,
            },
        )
    } else if !sizes[0].positive() {
        Err(FusedGridFault::BlockSize { block_size: sizes[0] })
    } else if radius_fits(fused_radius(explicit, default_radius), sizes[0]) {
        Ok((sizes[0], fused_radius(explicit, default_radius)))
    } else {
        Err(
            FusedGridFault::Radius {
                max_radius: sizes[0].halved(),
                radius: fused_radius(explicit, default_radius),
            },
        )
    }
}

/// `r` is the outcome: block size and radius, or the error whose message says
/// why there are none, with numbers written by `show`.
pub open spec fn settles_grid<S: Fn(Real64) -> String>(
    r: Result<(Real64, Real64), ClassifierError>,
    outcome: Result<(Real64, Real64), FusedGridFault>,
    show: S,
) -> bool {
    match r {
        Ok(p) => outcome == Ok::<(Real64, Real64), FusedGridFault>(p),
        Err(e) => {
            &&& outcome is Err
            &&& e is Pipeline
            &&& forall|m: ShowModel| #[trigger]
                shows(show, m) ==> e.text() == pipeline_text(outcome->Err_0.message(m))
        },
    }
}

/// The block size that all blocks of a directory share, and the radius in
/// effect. `differ` says when two sizes are different; `default_radius` stands
/// in where no radius is given; `show` writes the numbers of the message.
pub fn derive_size_and_radius<F: Fn(Real64, Real64) -> bool, S: Fn(Real64) -> String>(
    sizes: &Vec<Real64>,
    explicit: Option<Real64>,
    default_radius: Real64,
    differ: F,
    show: S,
) -> (r: Result<(Real64, Real64), ClassifierError>)
    requires
        forall|a: Real64, b: Real64| #[trigger] call_requires(differ, (a, b)),
        forall|x: Real64| #[trigger] call_requires(show, (x,)),
    ensures
        forall|m: SizesModel| #[trigger]
            compares_sizes(differ, m) ==> settles_grid(
                r,
                grid_outcome(sizes@, m, explicit, default_radius),
                show,
            ),
{
    if sizes.len() == 0 {
        return Err(FusedGridFault::NoBlocks.error(show));
    }
    let first = sizes[0];
    let mut i: usize = 1;
    while i < sizes.len()
        invariant
            1 <= i <= sizes@.len(),
            first == sizes@[0],
            forall|a: Real64, b: Real64| #[trigger] call_requires(differ, (a, b)),
            forall|x: Real64| #[trigger] call_requires(show, (x,)),
            forall|m: SizesModel| #[trigger]
                compares_sizes(differ, m) ==> first_other(sizes@, first, m, 1) == first_other(
                    sizes@,
                    first,
                    m,
                    i as int,
                ),
        decreases sizes@.len() - i,
    {
        if differ(first, sizes[i]) {
            return Err(FusedGridFault::MixedSizes { first, other: sizes[i] }.error(show));
        }
        i = i + 1;
    }
    if !first.is_positive() {
        return Err(FusedGridFault::BlockSize { block_size: first }.error(show));
    }
    let radius = match explicit {
        Some(x) => x,
        None => default_radius,
    };
    let max_radius = first.half();
    if !radius.is_finite() || radius.lt(Real64 { bits: 0 }) || max_radius.lt(radius) {
        return Err(FusedGridFault::Radius { max_radius, radius }.error(show));
    }
    Ok((first, radius))
}

/// The smallest of the first `n` numbers and infinity; NaN is passed over.
pub open spec fn smallest(values: Seq<Real64>, n: int) -> Real64
    decreases n,
{
    if n <= 0 {
        Real64 { bits: 0x7FF0_0000_0000_0000 }
    } else if values[n - 1].less(smallest(values, n - 1)) {
        values[n - 1]
    } else {
        smallest(values, n - 1)
    }
}

/// The largest of the first `n` numbers and minus infinity; NaN is passed
/// over.
pub open spec fn largest(values: Seq<Real64>, n: int) -> Real64
    decreases n,
{
    if n <= 0 {
        Real64 { bits: 0xFFF0_0000_0000_0000 }
    } else if largest(values, n - 1).less(values[n - 1]) {
        values[n - 1]
    } else {
        largest(values, n - 1)
    }
}

/// The smallest and the largest of block origins.
pub fn origin_bounds(values: &Vec<Real64>) -> (r: (Real64, Real64))
    ensures
        r.0 == smallest(values@, values@.len() as int),
        r.1 == largest(values@, values@.len() as int),
{
    let mut lo = Real64 { bits: 0x7FF0_0000_0000_0000 };
    let mut hi = Real64 { bits: 0xFFF0_0000_0000_0000 };
    let mut i: usize = 0;
    while i < values.len()
        invariant
            i <= values@.len(),
            lo == smallest(values@, i as int),
            hi == largest(values@, i as int),
        decreases values@.len() - i,
    {
        if values[i].lt(lo) {
            lo = values[i];
        }
        if hi.lt(values[i]) {
            hi = values[i];
        }
        i = i + 1;
    }
    (lo, hi)
}

// ── Metrics file ────────────────────────────────────────────────────────────

/// The counts of a class and its scores, the latter written out.
pub struct ClassRow {
    pub class_idx: usize,
    pub counts: ClassCounts,
    pub precision: String,
    pub recall: String,
    pub f1: String,
    pub iou: String,
}

/// A comma and the number.
pub open spec fn comma(n: u64) -> Seq<char> {
    ","@ + decimal(n as nat)
}

/// The line of a class.
pub open spec fn class_line(row: ClassRow, label_map: Seq<u8>) -> Seq<char> {
    decimal(row.class_idx as nat) + comma(asprs_of(label_map, row.class_idx as int) as u64) + comma(
        row.counts.tp,
    ) + comma(row.counts.fp) + comma(row.counts.tn) + comma(row.counts.false_negatives) + ","@
        + row.precision@ + ","@ + row.recall@ + ","@ + row.f1@ + ","@ + row.iou@ + "\n"@
}

/// The names of the columns.
pub open spec fn metrics_header() -> Seq<char> {
    "class_idx,asprs_code,tp,fp,tn,fn,precision,recall,f1,iou\n"@
}

/// The header and the lines of the first `n` classes.
pub open spec fn metrics_text(rows: Seq<ClassRow>, label_map: Seq<u8>, n: int) -> Seq<char>
    decreases n,
{
    if n <= 0 {
        metrics_header()
    } else {
        metrics_text(rows, label_map, n - 1) + class_line(rows[n - 1], label_map)
    }
}

fn push_number(out: &mut String, n: u64)
    ensures
        final(out)@ == old(out)@ + comma(n),
{
    let t = decimal_text(n);
    out.append(",");
    out.append(t.as_str());
    assert(out@ =~= old(out)@ + comma(n));
}

fn push_text(out: &mut String, s: &String)
    ensures
        final(out)@ == old(out)@ + ","@ + s@,
{
    out.append(",");
    out.append(s.as_str());
}

fn write_line(row: &ClassRow, label_map: &Vec<u8>) -> (r: String)
    ensures
        r@ == class_line(*row, label_map@),
{
    let mut out = decimal_text(row.class_idx as u64);
    push_number(&mut out, asprs_code(label_map, row.class_idx) as u64);
    push_number(&mut out, row.counts.tp);
    push_number(&mut out, row.counts.fp);
    push_number(&mut out, row.counts.tn);
    push_number(&mut out, row.counts.false_negatives);
    push_text(&mut out, &row.precision);
    push_text(&mut out, &row.recall);
    push_text(&mut out, &row.f1);
    push_text(&mut out, &row.iou);
    out.append("\n");
    out
}

/// The per-class metrics file: a line with the names of the columns and one
/// line per class.
pub fn write_per_class_metrics_csv(rows: &Vec<ClassRow>, label_map: &Vec<u8>) -> (r: String)
    ensures
        r@ == metrics_text(rows@, label_map@, rows@.len() as int),
{
    let mut out = "class_idx,asprs_code,tp,fp,tn,fn,precision,recall,f1,iou\n".to_owned();
    let mut i: usize = 0;
    while i < rows.len()
        invariant
            i <= rows@.len(),
            out@ == metrics_text(rows@, label_map@, i as int),
        decreases rows@.len() - i,
    {
        let line = write_line(&rows[i], label_map);
        out.append(line.as_str());
        i = i + 1;
    }
    out
}

// ── What the scores hold ────────────────────────────────────────────────────

/// Scored are exactly the points that got a class, in their order, each with its
/// class where a byte holds it and 255 where none does, its ground truth and its
/// side of the band. The returned sequence gives the place of each.
pub proof fn law_scored_points_are_the_labelled_ones(
    labels: Seq<Option<usize>>,
    gts: Seq<u8>,
    bands: Seq<bool>,
    n: int,
) -> (at: Seq<int>)
    requires
        0 <= n <= labels.len(),
    ensures
        selects(at, |i: int| labels[i] is Some, n),
        scored_points(labels, gts, bands, n).len() == at.len(),
        forall|j: int|
            0 <= j < at.len() ==> {
                let p = #[trigger] scored_points(labels, gts, bands, n)[j];
                &&& p.gt == gts[at[j]]
                &&& p.band == bands[at[j]]
                &&& labels[at[j]].unwrap() < 256 ==> p.pred == labels[at[j]].unwrap()
                &&& labels[at[j]].unwrap() >= 256 ==> p.pred == 255
            },
    decreases n,
{
    let p = |i: int| labels[i] is Some;
    if n == 0 {
        Seq::<int>::empty()
    } else {
        let before = law_scored_points_are_the_labelled_ones(labels, gts, bands, n - 1);
        lemma_selects_step(before, p, n - 1);
        if labels[n - 1] is Some {
            before.push(n - 1)
        } else {
            before
        }
    }
}

/// One side of the band holds exactly the points whose flag says so, in their
/// order. The returned sequence gives the place of each.
pub proof fn law_a_side_holds_its_points(points: Seq<ScoredPoint>, band: bool) -> (at: Seq<int>)
    ensures
        selects(at, |i: int| points[i].band == band, points.len() as int),
        in_band(points, band).len() == at.len(),
        forall|j: int|
            0 <= j < at.len() ==> #[trigger] in_band(points, band)[j] == points[at[j]],
    decreases points.len(),
{
    reveal(Seq::filter);
    let n = points.len() as int;
    let p = |i: int| points[i].band == band;
    if n == 0 {
        Seq::<int>::empty()
    } else {
        let rest = points.drop_last();
        let before = law_a_side_holds_its_points(rest, band);
        assert(selects(before, p, n - 1)) by {
            assert forall|i: int| #[trigger] before.contains(i) <==> 0 <= i < n - 1 && p(i) by {
                if 0 <= i < n - 1 {
                    assert(rest[i] == points[i]);
                }
            }
        }
        assert forall|j: int| 0 <= j < before.len() implies #[trigger] in_band(rest, band)[j]
            == points[before[j]] by {
            assert(before.contains(before[j]));
            assert(rest[before[j]] == points[before[j]]);
        }
        lemma_selects_step(before, p, n - 1);
        if points[n - 1].band == band {
            before.push(n - 1)
        } else {
            before
        }
    }
}

/// The class count is settled exactly where model and data have as many
/// classes, the request, if there is one, asks for as many, the data has a map,
/// and the model's map starts with it. It is then the model's count. A fault in
/// the data's map is handed on where the counts agree.
pub proof fn law_class_count_is_settled(
    r: Result<usize, ClassifierError>,
    model_n: usize,
    model_map: Seq<u8>,
    data_n: usize,
    derived: Result<Vec<u8>, ClassifierError>,
    requested: Option<usize>,
)
    requires
        reconciles(r, model_n, model_map, data_n, derived, requested),
    ensures
        r is Ok <==> {
            &&& model_n == data_n
            &&& requested is None || requested->0 == model_n
            &&& derived is Ok
            &&& derived->Ok_0@.len() <= model_map.len()
            &&& forall|i: int|
                0 <= i < derived->Ok_0@.len() ==> model_map[i] == #[trigger] derived->Ok_0@[i]
        },
        r is Ok ==> r->Ok_0 == model_n,
        derived is Err && model_n == data_n && (requested is None || requested->0 == model_n)
            ==> r == Err::<usize, ClassifierError>(derived->Err_0),
{
    if derived is Ok {
        let d = derived->Ok_0@;
        lemma_first_mismatch(model_map, d, 0);
        if first_mismatch(model_map, d, 0) is None && d.len() > 0 {
            assert(code_at(model_map, d.len() - 1) == Some(d[d.len() - 1]));
        }
    }
}

proof fn lemma_first_mismatch(model_map: Seq<u8>, derived: Seq<u8>, from: int)
    requires
        0 <= from,
    ensures
        match first_mismatch(model_map, derived, from) {
            None => forall|i: int|
                from <= i < derived.len() ==> code_at(model_map, i) == Some(#[trigger] derived[i]),
            Some(k) => from <= k < derived.len() && (k >= model_map.len() || model_map[k]
                != derived[k]),
        },
    decreases derived.len() - from,
{
    if from < derived.len() {
        lemma_first_mismatch(model_map, derived, from + 1);
    }
}

/// A grid and a radius are given exactly where there is a block, no block's size
/// differs from the first one's, that size is positive, and the radius (the one
/// asked for, else the default) is finite, not negative and not more than half
/// the size. They are then the first size and that radius.
pub proof fn law_grid_is_uniform(
    sizes: Seq<Real64>,
    m: SizesModel,
    explicit: Option<Real64>,
    default_radius: Real64,
)
    ensures
        ({
            let radius = if explicit is Some {
                explicit->0
            } else {
                default_radius
            };
            let outcome = grid_outcome(sizes, m, explicit, default_radius);
            &&& outcome is Ok <==> {
                &&& sizes.len() > 0
                &&& forall|i: int| 0 < i < sizes.len() ==> !m(sizes[0], #[trigger] sizes[i])
                &&& sizes[0].positive()
                &&& radius.finite()
                &&& !radius.less(Real64 { bits: 0 })
                &&& !sizes[0].halved().less(radius)
            }
            &&& outcome is Ok ==> outcome->Ok_0 == (sizes[0], radius)
            &&& sizes.len() == 0 <==> outcome == Err::<(Real64, Real64), FusedGridFault>(
                FusedGridFault::NoBlocks,
            )
            &&& sizes.len() > 0 && (exists|i: int|
                0 < i < sizes.len() && m(sizes[0], #[trigger] sizes[i])) ==> exists|i: int|
                0 < i < sizes.len() && m(sizes[0], sizes[i]) && outcome == Err::<
                    (Real64, Real64),
                    FusedGridFault,
                >(FusedGridFault::MixedSizes { first: sizes[0], other: #[trigger] sizes[i] })
        }),
{
    if sizes.len() > 0 {
        lemma_first_other(sizes, sizes[0], m, 1);
    }
}

proof fn lemma_first_other(sizes: Seq<Real64>, first: Real64, m: SizesModel, from: int)
    requires
        0 <= from,
    ensures
        match first_other(sizes, first, m, from) {
            None => forall|i: int| from <= i < sizes.len() ==> !m(first, #[trigger] sizes[i]),
            Some(x) => exists|i: int|
                from <= i < sizes.len() && m(first, sizes[i]) && x == #[trigger] sizes[i],
        },
    decreases sizes.len() - from,
{
    if from < sizes.len() {
        lemma_first_other(sizes, first, m, from + 1);
    }
}

/// No value lies below the smallest or above the largest one; each of them is one
/// of the values or the infinity that stands for none.
pub proof fn law_bounds_are_extremes(values: Seq<Real64>, n: int)
    requires
        0 <= n <= values.len(),
    ensures
        forall|i: int| 0 <= i < n ==> !(#[trigger] values[i]).less(smallest(values, n)),
        forall|i: int| 0 <= i < n ==> !largest(values, n).less(#[trigger] values[i]),
        !smallest(values, n).nan(),
        !largest(values, n).nan(),
        smallest(values, n) == (Real64 { bits: 0x7FF0_0000_0000_0000 }) || exists|i: int|
            0 <= i < n && #[trigger] values[i] == smallest(values, n),
        largest(values, n) == (Real64 { bits: 0xFFF0_0000_0000_0000 }) || exists|i: int|
            0 <= i < n && #[trigger] values[i] == largest(values, n),
    decreases n,
{
    if n > 0 {
        law_bounds_are_extremes(values, n - 1);
        let lo = smallest(values, n - 1);
        let hi = largest(values, n - 1);
        if exists|i: int| 0 <= i < n - 1 && #[trigger] values[i] == lo {
            let i = choose|i: int| 0 <= i < n - 1 && #[trigger] values[i] == lo;
            assert(values[i] == lo);
        }
        if exists|i: int| 0 <= i < n - 1 && #[trigger] values[i] == hi {
            let i = choose|i: int| 0 <= i < n - 1 && #[trigger] values[i] == hi;
            assert(values[i] == hi);
        }
        assert(values[n - 1] == values[n - 1]);
    }
}

/// Scoring a block adds to each cell of a matrix the number of points with its
/// true and its predicted class.
pub proof fn law_scored_points_are_counted(
    before: ConfusionMatrix,
    after: ConfusionMatrix,
    points: Seq<ScoredPoint>,
    truth: int,
    predicted: int,
)
    requires
        points_counted(before, after, points),
        0 <= truth < before@.len(),
        0 <= predicted < before@.len(),
    ensures
        after@.len() == before@.len(),
        after@[truth][predicted] == before@[truth][predicted] + places(
            |i: int| points[i].gt == truth && points[i].pred == predicted,
            points.len() as int,
        ).len(),
{
    let n = points.len() as int;
    law_pairs_are_counted(
        before@,
        after@,
        pred_column(points),
        gt_column(points),
        truth,
        predicted,
    );
    assert(places(|i: int| points[i].gt == truth && points[i].pred == predicted, n) =~= places(
        |i: int| gt_column(points)[i] == truth && pred_column(points)[i] == predicted,
        n,
    )) by {
        assert forall|i: int| 0 <= i < n implies #[trigger] gt_column(points)[i] == points[i].gt
            && pred_column(points)[i] == points[i].pred by {}
    }
}

/// A line of the metrics holds the class, its code, its four counts and its four
/// measures, with commas between them.
pub proof fn law_metric_columns(row: ClassRow, label_map: Seq<u8>)
    ensures
        class_line(row, label_map) == separated(
            seq![
                decimal(row.class_idx as nat),
                decimal(asprs_of(label_map, row.class_idx as int) as nat),
                decimal(row.counts.tp as nat),
                decimal(row.counts.fp as nat),
                decimal(row.counts.tn as nat),
                decimal(row.counts.false_negatives as nat),
                row.precision@,
                row.recall@,
                row.f1@,
                row.iou@,
            ],
            ',',
        ).push('\n'),
{
    let p1 = seq![decimal(row.class_idx as nat)];
    let p2 = p1.push(decimal(asprs_of(label_map, row.class_idx as int) as nat));
    let p3 = p2.push(decimal(row.counts.tp as nat));
    let p4 = p3.push(decimal(row.counts.fp as nat));
    let p5 = p4.push(decimal(row.counts.tn as nat));
    let p6 = p5.push(decimal(row.counts.false_negatives as nat));
    let p7 = p6.push(row.precision@);
    let p8 = p7.push(row.recall@);
    let p9 = p8.push(row.f1@);
    let p10 = p9.push(row.iou@);
    lemma_column(p1, p2.last());
    lemma_column(p2, p3.last());
    lemma_column(p3, p4.last());
    lemma_column(p4, p5.last());
    lemma_column(p5, p6.last());
    lemma_column(p6, p7.last());
    lemma_column(p7, p8.last());
    lemma_column(p8, p9.last());
    lemma_column(p9, p10.last());
    lemma_line_end(separated(p10, ','));
    assert(p10 =~= seq![
        decimal(row.class_idx as nat),
        decimal(asprs_of(label_map, row.class_idx as int) as nat),
        decimal(row.counts.tp as nat),
        decimal(row.counts.fp as nat),
        decimal(row.counts.tn as nat),
        decimal(row.counts.false_negatives as nat),
        row.precision@,
        row.recall@,
        row.f1@,
        row.iou@,
    ]);
}

proof fn lemma_column(parts: Seq<Seq<char>>, part: Seq<char>)
    requires
        parts.len() > 0,
    ensures
        separated(parts.push(part), ',') == separated(parts, ',') + (","@ + part),
        separated(parts.push(part), ',') == separated(parts, ',') + ","@ + part,
{
    reveal_strlit(",");
    law_a_further_part(parts, part, ',');
    let s = separated(parts, ',');
    assert(s.push(',') + part =~= s + (","@ + part));
    assert(s.push(',') + part =~= s + ","@ + part);
}

proof fn lemma_line_end(s: Seq<char>)
    ensures
        s + "\n"@ == s.push('\n'),
{
    reveal_strlit("\n");
    assert(s + "\n"@ =~= s.push('\n'));
}

/// Every point of a block counts once in the matrix of all points and once in
/// that of its side of the band.
pub proof fn law_points_count_on_their_side(
    before: FusedScores,
    after: FusedScores,
    points: Seq<ScoredPoint>,
    t: int,
    p: int,
)
    requires
        block_added(before, after, points),
        0 <= t < before.full@.len(),
        0 <= p < before.full@.len(),
        before.band@.len() == before.full@.len(),
        before.interior@.len() == before.full@.len(),
    ensures
        after.full@[t][p] == before.full@[t][p] + places(
            |i: int| points[i].gt == t && points[i].pred == p,
            points.len() as int,
        ).len(),
        after.band@[t][p] == before.band@[t][p] + places(
            |i: int| points[i].band && points[i].gt == t && points[i].pred == p,
            points.len() as int,
        ).len(),
        after.interior@[t][p] == before.interior@[t][p] + places(
            |i: int| !points[i].band && points[i].gt == t && points[i].pred == p,
            points.len() as int,
        ).len(),
        after.stats.n_blocks == before.stats.n_blocks + 1,
        after.stats.n_points == before.stats.n_points + points.len(),
        after.stats.band_points == before.stats.band_points + places(
            |i: int| points[i].band,
            points.len() as int,
        ).len(),
        after.stats.interior_points == before.stats.interior_points + places(
            |i: int| !points[i].band,
            points.len() as int,
        ).len(),
{
    let n = points.len() as int;
    let near = in_band(points, true);
    let inner = in_band(points, false);
    law_scored_points_are_counted(before.full, after.full, points, t, p);
    law_scored_points_are_counted(before.band, after.band, near, t, p);
    law_scored_points_are_counted(before.interior, after.interior, inner, t, p);
    lemma_side_places(points, true, t, p);
    lemma_side_places(points, false, t, p);
    assert(places(|i: int| points[i].band && points[i].gt == t && points[i].pred == p, n)
        =~= places(|i: int| points[i].band == true && points[i].gt == t && points[i].pred == p, n));
    assert(places(|i: int| !points[i].band && points[i].gt == t && points[i].pred == p, n)
        =~= places(
        |i: int| points[i].band == false && points[i].gt == t && points[i].pred == p,
        n,
    ));
    assert(places(|i: int| points[i].band, n) =~= places(|i: int| points[i].band == true, n));
    assert(places(|i: int| !points[i].band, n) =~= places(|i: int| points[i].band == false, n));
}

proof fn lemma_side_places(points: Seq<ScoredPoint>, band: bool, t: int, p: int)
    ensures
        places(
            |i: int| in_band(points, band)[i].gt == t && in_band(points, band)[i].pred == p,
            in_band(points, band).len() as int,
        ).len() == places(
            |i: int| points[i].band == band && points[i].gt == t && points[i].pred == p,
            points.len() as int,
        ).len(),
        in_band(points, band).len() == places(
            |i: int| points[i].band == band,
            points.len() as int,
        ).len(),
    decreases points.len(),
{
    reveal(Seq::filter);
    let n = points.len() as int;
    let side = in_band(points, band);
    let f = |i: int| side[i].gt == t && side[i].pred == p;
    let g = |i: int| points[i].band == band && points[i].gt == t && points[i].pred == p;
    let h = |i: int| points[i].band == band;
    lemma_places_step(f, side.len() as int);
    lemma_places_step(g, n);
    lemma_places_step(h, n);
    if n > 0 {
        let rest = points.drop_last();
        let before = in_band(rest, band);
        let k = before.len() as int;
        lemma_side_places(rest, band, t, p);
        let f0 = |i: int| before[i].gt == t && before[i].pred == p;
        let g0 = |i: int| rest[i].band == band && rest[i].gt == t && rest[i].pred == p;
        let h0 = |i: int| rest[i].band == band;
        assert forall|i: int| 0 <= i < n - 1 implies #[trigger] rest[i] == points[i] by {}
        assert(places(g0, n - 1) =~= places(g, n - 1));
        assert(places(h0, n - 1) =~= places(h, n - 1));
        assert forall|i: int| 0 <= i < k implies #[trigger] before[i] == side[i] by {}
        assert(places(f0, k) =~= places(f, k));
    }
}

/// The metrics of all classes are the heading and the lines of the first ones,
/// and behind them the lines of the others.
pub proof fn law_metric_lines_follow_the_heading(
    rows: Seq<ClassRow>,
    label_map: Seq<u8>,
    a: int,
    n: int,
)
    requires
        0 <= a <= n <= rows.len(),
    ensures
        metrics_text(rows, label_map, 0) == metrics_header(),
        metrics_text(rows, label_map, n).take(metrics_header().len() as int) == metrics_header(),
        metrics_text(rows, label_map, n) == metrics_text(rows, label_map, a) + metrics_text(
            rows.skip(a),
            label_map,
            n - a,
        ).skip(metrics_header().len() as int),
    decreases n,
{
    let h = metrics_header().len() as int;
    let start = metrics_text(rows, label_map, a);
    let rest = rows.skip(a);
    lemma_heading(rows, label_map, n);
    if n == a {
        assert(start + metrics_text(rest, label_map, 0).skip(h) =~= start);
    } else {
        law_metric_lines_follow_the_heading(rows, label_map, a, n - 1);
        lemma_heading(rest, label_map, n - a - 1);
        assert(rest[n - a - 1] == rows[n - 1]);
        let line = class_line(rows[n - 1], label_map);
        let part = metrics_text(rest, label_map, n - a - 1);
        assert((part + line).skip(h) =~= part.skip(h) + line);
        assert(start + (part.skip(h) + line) =~= start + part.skip(h) + line);
    }
}

proof fn lemma_heading(rows: Seq<ClassRow>, label_map: Seq<u8>, n: int)
    requires
        0 <= n,
    ensures
        metrics_text(rows, label_map, n).len() >= metrics_header().len(),
        metrics_text(rows, label_map, n).take(metrics_header().len() as int) == metrics_header(),
    decreases n,
{
    let h = metrics_header().len() as int;
    if n > 0 {
        lemma_heading(rows, label_map, n - 1);
        assert(metrics_text(rows, label_map, n).take(h) =~= metrics_text(
            rows,
            label_map,
            n - 1,
        ).take(h));
    } else {
        assert(metrics_header().take(h) =~= metrics_header());
    }
}

/// A class that fits in a byte is its own byte, and all larger ones share the
/// largest byte.
pub proof fn law_class_bytes_saturate(a: int, b: int)
    requires
        0 <= a < b,
    ensures
        class_byte(a) <= a,
        class_byte(a) < 255 ==> class_byte(a) == a,
        a < 255 ==> class_byte(a) < class_byte(b),
        a >= 255 ==> class_byte(a) == class_byte(b),
{
}

} // verus!
