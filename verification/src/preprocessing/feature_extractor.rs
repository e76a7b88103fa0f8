//! Feature rows: scalar features followed by eigenvalue features.

use vstd::prelude::*;

use crate::ieee::Real64;
use crate::preprocessing::config::HagNormalization;
use crate::preprocessing::eigen_prepass::EigenRow;
use crate::preprocessing::lite_point::LitePoint;
use crate::preprocessing::scalar_features::{
    compute_hag, computes_features, computes_heights, heights, normalise_scalar_features,
    scalar_rows, BlockSquare, FeatureModel, ZNormalization,
};
use crate::preprocessing::N_FEATURES;

verus! {

/// The scalar features of each point followed by its eigenvalue features.
pub open spec fn feature_rows(scalar: Seq<Seq<u32>>, eigen: Seq<EigenRow>) -> Seq<Seq<u32>> {
    Seq::new(
        row_count(scalar.len(), eigen.len()),
        |i: int| scalar[i] + eigen[i].values(),
    )
}

/// As many rows as both sides have.
pub open spec fn row_count(scalar: nat, eigen: nat) -> nat {
    if scalar <= eigen {
        scalar
    } else {
        eigen
    }
}

fn joined_row(scalar: &Vec<u32>, eigen: &EigenRow) -> (r: Vec<u32>)
    ensures
        r@ == scalar@ + eigen.values(),
{
    let mut out: Vec<u32> = Vec::new();
    let mut i: usize = 0;
    while i < scalar.len()
        invariant
            i <= scalar@.len(),
            out@ =~= scalar@.take(i as int),
        decreases scalar@.len() - i,
    {
        out.push(scalar[i]);
        i = i + 1;
    }
    let tail = eigen.to_values();
    let mut k: usize = 0;
    while k < tail.len()
        invariant
            k <= tail@.len(),
            out@ =~= scalar@ + tail@.take(k as int),
        decreases tail@.len() - k,
    {
        out.push(tail[k]);
        k = k + 1;
    }
    assert(tail@.take(k as int) =~= tail@);
    out
}

/// The scalar features of each point, then its eigenvalue features.
fn join_features(scalar: &Vec<Vec<u32>>, eigen: &Vec<EigenRow>) -> (r: Vec<Vec<u32>>)
    ensures
        r@.map_values(|row: Vec<u32>| row@) == feature_rows(
            scalar@.map_values(|row: Vec<u32>| row@),
            eigen@,
        ),
{
    let mut out: Vec<Vec<u32>> = Vec::new();
    let mut i: usize = 0;
    while i < scalar.len() && i < eigen.len()
        invariant
            i <= scalar@.len(),
            i <= eigen@.len(),
            out@.len() == i,
            forall|k: int| 0 <= k < i ==> (#[trigger] out@[k])@ == scalar@[k]@ + eigen@[k].values(),
        decreases scalar@.len() - i,
    {
        out.push(joined_row(&scalar[i], &eigen[i]));
        i = i + 1;
    }
    assert(out@.map_values(|row: Vec<u32>| row@) =~= feature_rows(
        scalar@.map_values(|row: Vec<u32>| row@),
        eigen@,
    ));
    out
}

/// The feature rows of a block: the scalar features of each point, then its
/// eigenvalue features. `ground` gives the elevation of the ground at a place,
/// where it is known; the other functions are the arithmetic on numbers.
pub fn extract_features<
    G: Fn(Real64, Real64) -> Option<Real64>,
    S: Fn(Real64, Real64) -> Real64,
    D: Fn(Real64, Real64) -> Real64,
    R: Fn(u32, u32) -> Real64,
    N: Fn(Real64) -> u32,
>(
    pts: &Vec<LitePoint>,
    eigen: &Vec<EigenRow>,
    square: &BlockSquare,
    hag_norm: HagNormalization,
    z_norm: ZNormalization,
    ground: G,
    difference: S,
    quotient: D,
    ratio: R,
    narrow: N,
) -> (r: Vec<Vec<u32>>)
    requires
        forall|x: Real64, y: Real64| #[trigger] call_requires(ground, (x, y)),
        forall|a: Real64, b: Real64| #[trigger] call_requires(difference, (a, b)),
        forall|a: Real64, b: Real64| #[trigger] call_requires(quotient, (a, b)),
        forall|a: u32, b: u32| b != 0 ==> #[trigger] call_requires(ratio, (a, b)),
        forall|x: Real64| #[trigger] call_requires(narrow, (x,)),
    ensures
        r@.len() == row_count(pts@.len(), eigen@.len()),
        forall|i: int|
            0 <= i < r@.len() ==> (#[trigger] r@[i])@.len() == N_FEATURES && r@[i]@.skip(7)
                == eigen@[i].values(),
        forall|m: FeatureModel|
            #![trigger computes_features(difference, quotient, ratio, narrow, m)]
            computes_heights(ground, difference, m) && computes_features(
                difference,
                quotient,
                ratio,
                narrow,
                m,
            ) ==> r@.map_values(|row: Vec<u32>| row@) == feature_rows(
                scalar_rows(m, pts@, heights(m, pts@), *square, hag_norm, z_norm),
                eigen@,
            ),
{
    let hag = compute_hag(pts, &ground, &difference);
    let scalar = normalise_scalar_features(
        pts,
        square,
        &hag,
        hag_norm,
        z_norm,
        &difference,
        &quotient,
        &ratio,
        &narrow,
    );
    let out = join_features(&scalar, eigen);
    proof {
        let rows = scalar@.map_values(|row: Vec<u32>| row@);
        let views = out@.map_values(|row: Vec<u32>| row@);
        assert(out@.len() == views.len());
        assert forall|i: int| 0 <= i < out@.len() implies (#[trigger] out@[i])@.len() == N_FEATURES
            && out@[i]@.skip(7) == eigen@[i].values() by {
            assert(out@[i]@ == views[i]);
            assert(views[i] == rows[i] + eigen@[i].values());
            assert(rows[i] == scalar@[i]@);
            assert(out@[i]@.skip(7) =~= eigen@[i].values());
        }
    }
    out
}

/// There is a row for each point that has both kinds of features; it holds the
/// point's own features first and those of its surroundings behind them.
pub proof fn law_rows_join_both_kinds(scalar: Seq<Seq<u32>>, eigen: Seq<EigenRow>, i: int)
    requires
        0 <= i < scalar.len(),
        i < eigen.len(),
    ensures
        feature_rows(scalar, eigen).len() <= scalar.len(),
        feature_rows(scalar, eigen).len() <= eigen.len(),
        feature_rows(scalar, eigen).len() > i,
        feature_rows(scalar, eigen)[i].take(scalar[i].len() as int) == scalar[i],
        feature_rows(scalar, eigen)[i].skip(scalar[i].len() as int) == eigen[i].values(),
{
    let r = feature_rows(scalar, eigen)[i];
    assert(r.take(scalar[i].len() as int) =~= scalar[i]);
    assert(r.skip(scalar[i].len() as int) =~= eigen[i].values());
}

} // verus!
