//! The votes of a block: class probabilities of its sampled points.

use vstd::prelude::*;

use crate::error::{pipeline_text, shows, ClassifierError, ShowModel};
use crate::ieee::{Real32, Real64};
use crate::model::argmax::{argmax, argmax_index};
use crate::model::pointnet::PointNetClassifier;
use crate::model::softmax::{
    computes_softmax, law_vote_keeps_the_largest_logit, probabilities, probability, softmax_row,
    SoftmaxModel,
};
use crate::text::{concat2, concat3, decimal, decimal_text};

verus! {

/// The class probabilities of the sampled points of a block, one row per
/// point, in model class-index space.
pub struct BlockInferenceResult {
    rows: Vec<Vec<Real32>>,
    classes: usize,
}

/// The probability rows of these logit rows.
pub open spec fn vote_rows(m: SoftmaxModel, logits: Seq<Vec<Real32>>, t: Real64) -> Seq<
    Seq<Real32>,
> {
    logits.map_values(|row: Vec<Real32>| probabilities(m, row@, t))
}

/// Copies of all elements.
fn copy_row(row: &Vec<Real32>) -> (r: Vec<Real32>)
    ensures
        r@ == row@,
{
    let mut out: Vec<Real32> = Vec::new();
    let mut i: usize = 0;
    while i < row.len()
        invariant
            i <= row@.len(),
            out@ =~= row@.take(i as int),
        decreases row@.len() - i,
    {
        out.push(row[i]);
        i = i + 1;
    }
    assert(out@ =~= row@);
    out
}

impl BlockInferenceResult {
    /// The probability rows.
    pub closed spec fn view(self) -> Seq<Seq<Real32>> {
        self.rows@.map_values(|r: Vec<Real32>| r@)
    }

    /// The number of classes.
    pub closed spec fn class_count(self) -> nat {
        self.classes as nat
    }

    /// The probabilities of each logit row at this temperature; an error where
    /// the temperature is not finite or not positive, or where there are more
    /// rows than a row index can count. The arithmetic of the softmax is the
    /// caller's, and `show` writes the number of the message.
    pub fn from_logits<
        P: Fn(Real32, Real32, Real64) -> Real64,
        N: Fn(Real64) -> Real32,
        A: Fn(Real64, Real64) -> Real64,
        D: Fn(Real32, Real64) -> Real32,
        W: Fn(Real64) -> String,
    >(
        logits: &Vec<Vec<Real32>>,
        n_classes: usize,
        temperature: Real64,
        power: P,
        narrow: N,
        sum: A,
        share: D,
        show: W,
    ) -> (r: Result<Self, ClassifierError>)
        requires
            forall|x: Real64| #[trigger] call_requires(show, (x,)),
            forall|v: Real32, max: Real32, t: Real64| #[trigger] call_requires(power, (v, max, t)),
            forall|e: Real64| #[trigger] call_requires(narrow, (e,)),
            forall|a: Real64, b: Real64| #[trigger] call_requires(sum, (a, b)),
            forall|e: Real32, s: Real64| #[trigger] call_requires(share, (e, s)),
        ensures
            match r {
                Ok(b) => {
                    &&& temperature.finite() && temperature.positive()
                    &&& logits@.len() <= u32::MAX
                    &&& b.class_count() == n_classes
                    &&& b@.len() == logits@.len()
                    &&& forall|i: int|
                        0 <= i < b@.len() ==> (#[trigger] b@[i]).len() == logits@[i]@.len()
                    &&& forall|m: SoftmaxModel| #[trigger]
                        computes_softmax(power, narrow, sum, share, m) ==> b@
                            == vote_rows(m, logits@, temperature)
                },
                Err(e) => {
                    &&& e is Pipeline
                    &&& if temperature.finite() && temperature.positive() {
                        &&& logits@.len() > u32::MAX
                        &&& e.text() == pipeline_text(
                            "from_logits: "@ + decimal(logits@.len())
                                + " rows exceed the u32 row-index capacity"@,
                        )
                    } else {
                        forall|m: ShowModel| #[trigger]
                            shows(show, m) ==> e.text() == pipeline_text(
                                "from_logits: temperature must be finite and > 0.0, got "@ + m(
                                    temperature,
                                ),
                            )
                    }
                },
            },
    {
        if !temperature.is_finite() || !temperature.is_positive() {
            let shown = show(temperature);
            return Err(
                ClassifierError::Pipeline(
                    concat2(
                        "from_logits: temperature must be finite and > 0.0, got ",
                        shown.as_str(),
                    ),
                ),
            );
        }
        if logits.len() as u64 > u32::MAX as u64 {
            let n = decimal_text(logits.len() as u64);
            return Err(
                ClassifierError::Pipeline(
                    concat3(
                        "from_logits: ",
                        n.as_str(),
                        " rows exceed the u32 row-index capacity",
                    ),
                ),
            );
        }
        let mut rows: Vec<Vec<Real32>> = Vec::new();
        let mut i: usize = 0;
        while i < logits.len()
            invariant
                i <= logits@.len(),
                rows@.len() == i,
                forall|v: Real32, max: Real32, t: Real64| #[trigger]
                    call_requires(power, (v, max, t)),
                forall|e: Real64| #[trigger] call_requires(narrow, (e,)),
                forall|a: Real64, b: Real64| #[trigger] call_requires(sum, (a, b)),
                forall|e: Real32, s: Real64| #[trigger] call_requires(share, (e, s)),
                forall|k: int| 0 <= k < i ==> (#[trigger] rows@[k])@.len() == logits@[k]@.len(),
                forall|m: SoftmaxModel, k: int|
                    0 <= k < i && #[trigger] computes_softmax(power, narrow, sum, share, m) ==> (
                    #[trigger] rows@[k])@ == probabilities(m, logits@[k]@, temperature),
            decreases logits@.len() - i,
        {
            rows.push(softmax_row(&logits[i], temperature, &power, &narrow, &sum, &share));
            i = i + 1;
        }
        let b = BlockInferenceResult { rows, classes: n_classes };
        proof {
            assert forall|i: int| 0 <= i < b@.len() implies (#[trigger] b@[i]).len()
                == logits@[i]@.len() by {
                assert(b@[i] == rows@[i]@);
            }
            assert forall|m: SoftmaxModel| #[trigger]
                computes_softmax(power, narrow, sum, share, m) implies b@ == vote_rows(
                m,
                logits@,
                temperature,
            ) by {
                assert(b@ =~= vote_rows(m, logits@, temperature));
            }
        }
        Ok(b)
    }

    /// The number of classes per probability row.
    pub fn n_classes(&self) -> (r: usize)
        ensures
            r == self.class_count(),
    {
        self.classes
    }

    /// The vote of the block at a place: the squared distance of the sampled
    /// point nearest to it, and that point's probabilities. `nearest` is what
    /// the spatial index found; a block without points has no vote.
    pub fn nearest_vote(&self, nearest: Option<(Real64, u32)>) -> (r: Option<
        (Real64, Vec<Real32>),
    >)
        requires
            nearest matches Some(hit) ==> self@.len() > 0 ==> hit.1 < self@.len(),
        ensures
            match r {
                None => self@.len() == 0 || nearest is None,
                Some((d, row)) => nearest matches Some(hit) && d == hit.0 && self@.len() > 0
                    && row@ == self@[hit.1 as int],
            },
    {
        if self.rows.len() == 0 {
            return None;
        }
        match nearest {
            None => None,
            Some((d, i)) => Some((d, copy_row(&self.rows[i as usize]))),
        }
    }
}

/// Where the softmax keeps the order within a row, a block that votes alone
/// gives each point the class of its largest logit.
pub proof fn law_lone_vote_is_the_largest_logit(
    m: SoftmaxModel,
    logits: Seq<Vec<Real32>>,
    t: Real64,
    at: int,
)
    requires
        0 <= at < logits.len(),
        forall|i: int, j: int|
            0 <= i < logits[at]@.len() && 0 <= j < logits[at]@.len() ==> probability(
                m,
                logits[at]@,
                t,
                logits[at]@[i],
            ).less(probability(m, logits[at]@, t, logits[at]@[j])) == #[trigger] logits[at]@[i].less(
                #[trigger] logits[at]@[j],
            ),
    ensures
        ({
            let row = logits[at]@;
            let vote = vote_rows(m, logits, t)[at];
            &&& vote.len() == row.len()
            &&& argmax(vote, vote.len() as int) == argmax(row, row.len() as int)
        }),
{
    law_vote_keeps_the_largest_logit(m, logits[at]@, t);
}

// ── Labels ──────────────────────────────────────────────────────────────────

/// The ASPRS code of a model class; 1 (unassigned) where the map has none.
pub open spec fn asprs_of(label_map: Seq<u8>, class: int) -> u8 {
    if 0 <= class < label_map.len() {
        label_map[class]
    } else {
        1
    }
}

/// The ASPRS code of a model class.
pub fn asprs_code(label_map: &Vec<u8>, class: usize) -> (r: u8)
    ensures
        r == asprs_of(label_map@, class as int),
{
    if class < label_map.len() {
        label_map[class]
    } else {
        1
    }
}

impl PointNetClassifier {
    /// The ASPRS code of each row of logits: that of its highest one, the last
    /// of equal ones.
    pub fn classify(&self, logits: &Vec<Vec<Real32>>) -> (r: Vec<u8>)
        ensures
            r@.len() == logits@.len(),
            forall|i: int|
                0 <= i < r@.len() ==> #[trigger] r@[i] == asprs_of(
                    self.label_map@,
                    argmax(logits@[i]@, logits@[i]@.len() as int),
                ),
    {
        let mut out: Vec<u8> = Vec::new();
        let mut i: usize = 0;
        while i < logits.len()
            invariant
                i <= logits@.len(),
                out@.len() == i,
                forall|k: int|
                    0 <= k < i ==> #[trigger] out@[k] == asprs_of(
                        self.label_map@,
                        argmax(logits@[k]@, logits@[k]@.len() as int),
                    ),
            decreases logits@.len() - i,
        {
            out.push(asprs_code(&self.label_map, argmax_index(&logits[i])));
            i = i + 1;
        }
        out
    }
}

/// A class of the label map is written as the map says, any other as
/// unclassified, which has the code 1.
pub proof fn law_unknown_classes_are_unclassified(label_map: Seq<u8>, class: int)
    ensures
        forall|i: int|
            0 <= i < label_map.len() && i == class ==> asprs_of(label_map, class)
                == #[trigger] label_map[i],
        class < 0 || class >= label_map.len() ==> asprs_of(label_map, class) == 1,
{
}

} // verus!
