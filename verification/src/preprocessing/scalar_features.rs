//! The seven scalar features of points: place, radiometry and height above
//! ground, each brought into the range from 0 to 1.
//!
//! The arithmetic on single numbers, and the ground model, are the caller's.

use vstd::prelude::*;

use crate::ieee::{Real64, INFINITY, ONE};
use crate::ordering::{law_sorted_by, sorted_by};
use crate::preprocessing::config::HagNormalization;
use crate::preprocessing::lite_point::LitePoint;
use crate::preprocessing::real_order::{no_nan, nth_smallest, real_key};

verus! {

/// The pattern of `1e-9`, below which no number is divided by.
pub const LEAST_DIVISOR: u64 = 0x3E11_2E0B_E826_D695;

/// How elevations are brought into the range from 0 to 1.
#[derive(Debug, Clone, Copy, PartialEq, Eq, Structural)]
pub enum ZNormalization {
    /// By the range of the whole file.
    Global { z_min: Real64, z_max: Real64 },
    /// By the range of each block.
    BlockMinMax,
}

/// The square of a block: its south-west corner and its edge length.
#[derive(Debug, Clone, Copy, PartialEq, Eq, Structural)]
pub struct BlockSquare {
    pub origin_x: Real64,
    pub origin_y: Real64,
    pub size: Real64,
}

/// The arithmetic of scalar features.
pub ghost struct FeatureModel {
    /// The ground elevation at a place, where it is known.
    pub ground: spec_fn(Real64, Real64) -> Option<Real64>,
    pub difference: spec_fn(Real64, Real64) -> Real64,
    pub quotient: spec_fn(Real64, Real64) -> Real64,
    /// The quotient of two whole numbers.
    pub ratio: spec_fn(u32, u32) -> Real64,
    /// A number in single precision, as its bit pattern.
    pub narrow: spec_fn(Real64) -> u32,
}

/// The two functions compute heights as `m` says.
pub open spec fn computes_heights<
    G: Fn(Real64, Real64) -> Option<Real64>,
    S: Fn(Real64, Real64) -> Real64,
>(ground: G, difference: S, m: FeatureModel) -> bool {
    &&& forall|x: Real64, y: Real64, r: Option<Real64>| #[trigger]
        call_ensures(ground, (x, y), r) ==> r == (m.ground)(x, y)
    &&& forall|a: Real64, b: Real64, r: Real64| #[trigger]
        call_ensures(difference, (a, b), r) ==> r == (m.difference)(a, b)
}

/// The four functions compute features as `m` says.
pub open spec fn computes_features<
    S: Fn(Real64, Real64) -> Real64,
    D: Fn(Real64, Real64) -> Real64,
    R: Fn(u32, u32) -> Real64,
    N: Fn(Real64) -> u32,
>(difference: S, quotient: D, ratio: R, narrow: N, m: FeatureModel) -> bool {
    &&& forall|a: Real64, b: Real64, r: Real64| #[trigger]
        call_ensures(difference, (a, b), r) ==> r == (m.difference)(a, b)
    &&& forall|a: Real64, b: Real64, r: Real64| #[trigger]
        call_ensures(quotient, (a, b), r) ==> r == (m.quotient)(a, b)
    &&& forall|a: u32, b: u32, r: Real64| #[trigger]
        call_ensures(ratio, (a, b), r) ==> r == (m.ratio)(a, b)
    &&& forall|x: Real64, r: u32| #[trigger]
        call_ensures(narrow, (x,), r) ==> r == (m.narrow)(x)
}

// ── Elevations ──────────────────────────────────────────────────────────────

/// The lowest elevation of the first `n` points, which skips NaN; infinity
/// where there is none.
pub open spec fn lowest(pts: Seq<LitePoint>, n: int) -> Real64
    decreases n,
{
    if n <= 0 {
        Real64 { bits: INFINITY }
    } else {
        let before = lowest(pts, n - 1);
        if pts[n - 1].z.less(before) {
            pts[n - 1].z
        } else {
            before
        }
    }
}

/// The highest elevation of the first `n` points, which skips NaN; minus
/// infinity where there is none.
pub open spec fn highest(pts: Seq<LitePoint>, n: int) -> Real64
    decreases n,
{
    if n <= 0 {
        (Real64 { bits: INFINITY }).negated()
    } else {
        let before = highest(pts, n - 1);
        if before.less(pts[n - 1].z) {
            pts[n - 1].z
        } else {
            before
        }
    }
}

fn find_lowest(pts: &Vec<LitePoint>) -> (r: Real64)
    ensures
        r == lowest(pts@, pts@.len() as int),
{
    let mut z = Real64 { bits: INFINITY };
    let mut i: usize = 0;
    while i < pts.len()
        invariant
            i <= pts@.len(),
            z == lowest(pts@, i as int),
        decreases pts@.len() - i,
    {
        if pts[i].z.lt(z) {
            z = pts[i].z;
        }
        i = i + 1;
    }
    z
}

fn find_highest(pts: &Vec<LitePoint>) -> (r: Real64)
    ensures
        r == highest(pts@, pts@.len() as int),
{
    let mut z = Real64 { bits: INFINITY }.negate();
    let mut i: usize = 0;
    while i < pts.len()
        invariant
            i <= pts@.len(),
            z == highest(pts@, i as int),
        decreases pts@.len() - i,
    {
        if z.lt(pts[i].z) {
            z = pts[i].z;
        }
        i = i + 1;
    }
    z
}

/// The height of a point above the ground, or above `z_min` where the ground is
/// not known.
pub open spec fn height(m: FeatureModel, p: LitePoint, z_min: Real64) -> Real64 {
    match (m.ground)(p.x, p.y) {
        Some(z) => (m.difference)(p.z, z),
        None => (m.difference)(p.z, z_min),
    }
}

/// The heights of all points; the lowest of them stands for the ground where
/// that is not known.
pub open spec fn heights(m: FeatureModel, pts: Seq<LitePoint>) -> Seq<Real64> {
    pts.map_values(|p: LitePoint| height(m, p, lowest(pts, pts.len() as int)))
}

/// The height of each point above the ground. `ground` gives the elevation of
/// the ground at a place, or none where the model has no value or there is no
/// model.
pub fn compute_hag<
    G: Fn(Real64, Real64) -> Option<Real64>,
    S: Fn(Real64, Real64) -> Real64,
>(pts: &Vec<LitePoint>, ground: &G, difference: &S) -> (r: Vec<Real64>)
    requires
        forall|x: Real64, y: Real64| #[trigger] call_requires(*ground, (x, y)),
        forall|a: Real64, b: Real64| #[trigger] call_requires(*difference, (a, b)),
    ensures
        r@.len() == pts@.len(),
        forall|m: FeatureModel| #[trigger]
            computes_heights(*ground, *difference, m) ==> r@ == heights(m, pts@),
{
    let z_min = find_lowest(pts);
    let mut out: Vec<Real64> = Vec::new();
    let mut i: usize = 0;
    while i < pts.len()
        invariant
            i <= pts@.len(),
            out@.len() == i,
            z_min == lowest(pts@, pts@.len() as int),
            forall|x: Real64, y: Real64| #[trigger] call_requires(*ground, (x, y)),
            forall|a: Real64, b: Real64| #[trigger] call_requires(*difference, (a, b)),
            forall|m: FeatureModel, k: int|
                0 <= k < i && #[trigger] computes_heights(*ground, *difference, m)
                    ==> #[trigger] out@[k] == height(m, pts@[k], z_min),
        decreases pts@.len() - i,
    {
        let p = pts[i];
        let z = match ground(p.x, p.y) {
            Some(z) => z,
            None => z_min,
        };
        out.push(difference(p.z, z));
        i = i + 1;
    }
    proof {
        assert forall|m: FeatureModel| #[trigger]
            computes_heights(*ground, *difference, m) implies out@ == heights(m, pts@) by {
            assert(out@ =~= heights(m, pts@));
        }
    }
    out
}

// ── Features ────────────────────────────────────────────────────────────────

/// The number, or the nearer of 0 and 1 where it lies beyond them.
pub open spec fn in_unit(x: Real64) -> Real64 {
    if x.less(Real64 { bits: 0 }) {
        Real64 { bits: 0 }
    } else if (Real64 { bits: ONE }).less(x) {
        Real64 { bits: ONE }
    } else {
        x
    }
}

/// The number, or the least divisor where the number is not greater.
pub open spec fn divisor(x: Real64) -> Real64 {
    if (Real64 { bits: LEAST_DIVISOR }).less(x) {
        x
    } else {
        Real64 { bits: LEAST_DIVISOR }
    }
}

/// The place of the 99th percentile among `n` values in ascending order.
pub open spec fn percentile_place(n: nat) -> int {
    99 * (n - 1) / 100
}

/// The 99th percentile; 0 for no values. Values among which there is NaN have
/// no order and are taken as they stand.
pub open spec fn percentile(values: Seq<Real64>) -> Real64 {
    if values.len() == 0 {
        Real64 { bits: 0 }
    } else if no_nan(values) {
        sorted_by(values, real_key())[percentile_place(values.len())]
    } else {
        values[percentile_place(values.len())]
    }
}

/// The height that becomes the feature value 1.
pub open spec fn reference_height(hag_norm: HagNormalization, heights: Seq<Real64>) -> Real64 {
    match hag_norm {
        HagNormalization::FixedMeters(h) => divisor(h),
        HagNormalization::BlockPercentile99 => divisor(percentile(heights)),
    }
}

/// The elevation that becomes the feature value 0, and the range above it.
pub open spec fn elevation_range(
    m: FeatureModel,
    z_norm: ZNormalization,
    pts: Seq<LitePoint>,
) -> (Real64, Real64) {
    let (low, high) = match z_norm {
        ZNormalization::Global { z_min, z_max } => (z_min, z_max),
        ZNormalization::BlockMinMax => (
            lowest(pts, pts.len() as int),
            highest(pts, pts.len() as int),
        ),
    };
    (low, divisor((m.difference)(high, low)))
}

/// The size of a scan angle, in degrees.
pub open spec fn angle_size(angle: i16) -> u32 {
    (if angle < 0 {
        -(angle as int)
    } else {
        angle as int
    }) as u32
}

/// A feature value: the number brought into the range from 0 to 1, in single
/// precision.
pub open spec fn feature(m: FeatureModel, x: Real64) -> u32 {
    (m.narrow)(in_unit(x))
}

/// The scalar features of a point that lies `height` above ground.
pub open spec fn scalar_row(
    m: FeatureModel,
    p: LitePoint,
    height: Real64,
    square: BlockSquare,
    z: (Real64, Real64),
    reference: Real64,
) -> Seq<u32> {
    seq![
        feature(m, (m.quotient)((m.difference)(p.x, square.origin_x), square.size)),
        feature(m, (m.quotient)((m.difference)(p.y, square.origin_y), square.size)),
        feature(m, (m.quotient)((m.difference)(p.z, z.0), z.1)),
        feature(m, (m.ratio)(p.intensity as u32, 65535)),
        if p.number_of_returns == 0 {
            0
        } else {
            feature(m, (m.ratio)(p.return_number as u32, p.number_of_returns as u32))
        },
        feature(m, (m.ratio)(angle_size(p.scan_angle), 90)),
        feature(m, (m.quotient)(height, reference)),
    ]
}

/// The scalar features of all points.
pub open spec fn scalar_rows(
    m: FeatureModel,
    pts: Seq<LitePoint>,
    heights: Seq<Real64>,
    square: BlockSquare,
    hag_norm: HagNormalization,
    z_norm: ZNormalization,
) -> Seq<Seq<u32>> {
    Seq::new(
        pts.len(),
        |i: int|
            scalar_row(
                m,
                pts[i],
                heights[i],
                square,
                elevation_range(m, z_norm, pts),
                reference_height(hag_norm, heights),
            ),
    )
}

/// The number brought into the range from 0 to 1.
pub fn clamp_unit(x: Real64) -> (r: Real64)
    ensures
        r == in_unit(x),
{
    let zero = Real64 { bits: 0 };
    let one = Real64 { bits: ONE };
    if x.lt(zero) {
        zero
    } else if one.lt(x) {
        one
    } else {
        x
    }
}

fn safe_divisor(x: Real64) -> (r: Real64)
    ensures
        r == divisor(x),
{
    let least = Real64 { bits: LEAST_DIVISOR };
    if least.lt(x) {
        x
    } else {
        least
    }
}

fn has_nan(values: &Vec<Real64>) -> (r: bool)
    ensures
        r == !no_nan(values@),
{
    let mut i: usize = 0;
    while i < values.len()
        invariant
            i <= values@.len(),
            forall|k: int| 0 <= k < i ==> !(#[trigger] values@[k]).nan(),
        decreases values@.len() - i,
    {
        if !values[i].le(values[i]) {
            assert(values@[i as int].nan());
            return true;
        }
        i = i + 1;
    }
    false
}

/// The 99th percentile.
fn percentile_99(values: &Vec<Real64>) -> (r: Real64)
    ensures
        r == percentile(values@),
{
    if values.len() == 0 {
        return Real64 { bits: 0 };
    }
    let n: usize = values.len() - 1;
    let hundreds: usize = n / 100;
    let rest: usize = n % 100;
    let place: usize = 99 * hundreds + 99 * rest / 100;
    assert(place == percentile_place(values@.len()) && place < values@.len()) by {
        assert(n == 100 * hundreds + rest);
        assert(99 * n == 100 * (99 * hundreds) + 99 * rest);
    }
    if has_nan(values) {
        values[place]
    } else {
        nth_smallest(values, place)
    }
}

/// The scalar features of the points of a block, given the height of each above
/// the ground.
pub fn normalise_scalar_features<
    S: Fn(Real64, Real64) -> Real64,
    D: Fn(Real64, Real64) -> Real64,
    R: Fn(u32, u32) -> Real64,
    N: Fn(Real64) -> u32,
>(
    pts: &Vec<LitePoint>,
    square: &BlockSquare,
    hag_values: &Vec<Real64>,
    hag_norm: HagNormalization,
    z_norm: ZNormalization,
    difference: &S,
    quotient: &D,
    ratio: &R,
    narrow: &N,
) -> (r: Vec<Vec<u32>>)
    requires
        pts@.len() == hag_values@.len(),
        forall|a: Real64, b: Real64| #[trigger] call_requires(*difference, (a, b)),
        forall|a: Real64, b: Real64| #[trigger] call_requires(*quotient, (a, b)),
        forall|a: u32, b: u32| b != 0 ==> #[trigger] call_requires(*ratio, (a, b)),
        forall|x: Real64| #[trigger] call_requires(*narrow, (x,)),
    ensures
        r@.len() == pts@.len(),
        forall|i: int| 0 <= i < r@.len() ==> (#[trigger] r@[i])@.len() == 7,
        forall|m: FeatureModel| #[trigger]
            computes_features(*difference, *quotient, *ratio, *narrow, m) ==> r@.map_values(
                |row: Vec<u32>| row@,
            ) == scalar_rows(m, pts@, hag_values@, *square, hag_norm, z_norm),
{
    let (low, high) = match z_norm {
        ZNormalization::Global { z_min, z_max } => (z_min, z_max),
        ZNormalization::BlockMinMax => (find_lowest(pts), find_highest(pts)),
    };
    let range = safe_divisor(difference(high, low));
    let reference = match hag_norm {
        HagNormalization::FixedMeters(h) => safe_divisor(h),
        HagNormalization::BlockPercentile99 => safe_divisor(percentile_99(hag_values)),
    };
    let mut out: Vec<Vec<u32>> = Vec::new();
    let mut i: usize = 0;
    while i < pts.len()
        invariant
            i <= pts@.len(),
            pts@.len() == hag_values@.len(),
            out@.len() == i,
            forall|a: Real64, b: Real64| #[trigger] call_requires(*difference, (a, b)),
            forall|a: Real64, b: Real64| #[trigger] call_requires(*quotient, (a, b)),
            forall|a: u32, b: u32| b != 0 ==> #[trigger] call_requires(*ratio, (a, b)),
            forall|x: Real64| #[trigger] call_requires(*narrow, (x,)),
            forall|k: int| 0 <= k < i ==> (#[trigger] out@[k])@.len() == 7,
            forall|m: FeatureModel, k: int|
                0 <= k < i && #[trigger] computes_features(
                    *difference,
                    *quotient,
                    *ratio,
                    *narrow,
                    m,
                ) ==> (#[trigger] out@[k])@ == scalar_row(
                    m,
                    pts@[k],
                    hag_values@[k],
                    *square,
                    (low, range),
                    reference,
                ),
        decreases pts@.len() - i,
    {
        let p = pts[i];
        let angle: u32 = if p.scan_angle < 0 {
            (-(p.scan_angle as i32)) as u32
        } else {
            p.scan_angle as u32
        };
        let mut row: Vec<u32> = Vec::new();
        row.push(
            narrow(clamp_unit(quotient(difference(p.x, square.origin_x), square.size))),
        );
        row.push(
            narrow(clamp_unit(quotient(difference(p.y, square.origin_y), square.size))),
        );
        row.push(narrow(clamp_unit(quotient(difference(p.z, low), range))));
        row.push(narrow(clamp_unit(ratio(p.intensity as u32, 65535))));
        if p.number_of_returns == 0 {
            row.push(0);
        } else {
            row.push(
                narrow(clamp_unit(ratio(p.return_number as u32, p.number_of_returns as u32))),
            );
        }
        row.push(narrow(clamp_unit(ratio(angle, 90))));
        row.push(narrow(clamp_unit(quotient(hag_values[i], reference))));
        let ghost done = row@;
        let ghost rows0 = out@;
        out.push(row);
        proof {
            assert forall|m: FeatureModel, k: int|
                0 <= k < i + 1 && #[trigger] computes_features(
                    *difference,
                    *quotient,
                    *ratio,
                    *narrow,
                    m,
                ) implies (#[trigger] out@[k])@ == scalar_row(
                m,
                pts@[k],
                hag_values@[k],
                *square,
                (low, range),
                reference,
            ) by {
                if k < i {
                    assert(out@[k] == rows0[k]);
                } else {
                    assert(done =~= scalar_row(
                        m,
                        pts@[k],
                        hag_values@[k],
                        *square,
                        (low, range),
                        reference,
                    ));
                }
            }
        }
        i = i + 1;
    }
    proof {
        assert forall|m: FeatureModel| #[trigger]
            computes_features(*difference, *quotient, *ratio, *narrow, m) implies out@.map_values(
            |row: Vec<u32>| row@,
        ) == scalar_rows(m, pts@, hag_values@, *square, hag_norm, z_norm) by {
            assert(elevation_range(m, z_norm, pts@) == (low, range));
            assert(reference_height(hag_norm, hag_values@) == reference);
            assert(out@.map_values(|row: Vec<u32>| row@) =~= scalar_rows(
                m,
                pts@,
                hag_values@,
                *square,
                hag_norm,
                z_norm,
            ));
        }
    }
    out
}

// ── Laws ────────────────────────────────────────────────────────────────────

/// With a fixed reference height, points at the same height above ground have
/// the same height feature, whatever else is in their blocks.
pub proof fn law_fixed_reference_ignores_neighbours(
    m: FeatureModel,
    a: (Seq<LitePoint>, Seq<Real64>, BlockSquare, ZNormalization),
    b: (Seq<LitePoint>, Seq<Real64>, BlockSquare, ZNormalization),
    reference: Real64,
    i: int,
    j: int,
)
    requires
        0 <= i < a.0.len(),
        0 <= j < b.0.len(),
        a.1[i] == b.1[j],
    ensures
        ({
            let fixed = HagNormalization::FixedMeters(reference);
            scalar_rows(m, a.0, a.1, a.2, fixed, a.3)[i][6] == scalar_rows(
                m,
                b.0,
                b.1,
                b.2,
                fixed,
                b.3,
            )[j][6]
        }),
{
}

/// With a fixed reference height, a point whose height is no less than it, so
/// that the quotient is no less than 1, has the height feature 1.
pub proof fn law_reference_saturates(
    m: FeatureModel,
    pts: Seq<LitePoint>,
    heights: Seq<Real64>,
    square: BlockSquare,
    z_norm: ZNormalization,
    reference: Real64,
    i: int,
)
    requires
        0 <= i < pts.len(),
        (Real64 { bits: ONE }).at_most((m.quotient)(heights[i], divisor(reference))),
    ensures
        scalar_rows(
            m,
            pts,
            heights,
            square,
            HagNormalization::FixedMeters(reference),
            z_norm,
        )[i][6] == (m.narrow)(Real64 { bits: ONE }),
{
    let q = (m.quotient)(heights[i], divisor(reference));
    if !(Real64 { bits: ONE }).less(q) {
        assert(q.key() == ONE);
        assert(q.bits == ONE);
    }
}

/// Every number that becomes a feature lies between 0 and 1 unless it is NaN.
pub proof fn law_features_are_in_unit_range(x: Real64)
    requires
        !x.nan(),
    ensures
        (Real64 { bits: 0 }).at_most(in_unit(x)),
        in_unit(x).at_most(Real64 { bits: ONE }),
        (Real64 { bits: 0 }).at_most(x) && x.at_most(Real64 { bits: ONE }) ==> in_unit(x) == x,
{
}

/// Where the quotients of a point are numbers and narrowing keeps to the range
/// from 0 to 1, so does every scalar feature of the point. `holds` says of a
/// pattern that it is in that range.
pub proof fn law_scalar_features_are_in_range(
    m: FeatureModel,
    holds: spec_fn(u32) -> bool,
    p: LitePoint,
    height: Real64,
    square: BlockSquare,
    z: (Real64, Real64),
    reference: Real64,
    k: int,
)
    requires
        0 <= k < 7,
        holds(0),
        !(m.quotient)((m.difference)(p.x, square.origin_x), square.size).nan(),
        !(m.quotient)((m.difference)(p.y, square.origin_y), square.size).nan(),
        !(m.quotient)((m.difference)(p.z, z.0), z.1).nan(),
        !(m.quotient)(height, reference).nan(),
        forall|a: u32, b: u32| b != 0 ==> !(#[trigger] (m.ratio)(a, b)).nan(),
        forall|x: Real64|
            (Real64 { bits: 0 }).at_most(x) && x.at_most(Real64 { bits: ONE }) ==> holds(
                #[trigger] (m.narrow)(x),
            ),
    ensures
        holds(scalar_row(m, p, height, square, z, reference)[k]),
{
    law_features_are_in_unit_range(
        (m.quotient)((m.difference)(p.x, square.origin_x), square.size),
    );
    law_features_are_in_unit_range(
        (m.quotient)((m.difference)(p.y, square.origin_y), square.size),
    );
    law_features_are_in_unit_range((m.quotient)((m.difference)(p.z, z.0), z.1));
    law_features_are_in_unit_range((m.quotient)(height, reference));
    law_features_are_in_unit_range((m.ratio)(p.intensity as u32, 65535));
    law_features_are_in_unit_range((m.ratio)(angle_size(p.scan_angle), 90));
    if p.number_of_returns != 0 {
        law_features_are_in_unit_range(
            (m.ratio)(p.return_number as u32, p.number_of_returns as u32),
        );
    }
}

/// Where no elevation is NaN, the lowest one is that of a point, and no point
/// lies lower.
pub proof fn law_lowest_is_the_minimum(pts: Seq<LitePoint>, n: int)
    requires
        0 < n <= pts.len(),
        forall|i: int| 0 <= i < n ==> !(#[trigger] pts[i]).z.nan(),
    ensures
        exists|i: int| 0 <= i < n && (#[trigger] pts[i]).z == lowest(pts, n),
        forall|i: int| 0 <= i < n ==> lowest(pts, n).at_most((#[trigger] pts[i]).z),
    decreases n,
{
    reveal_with_fuel(lowest, 2);
    if n > 1 {
        law_lowest_is_the_minimum(pts, n - 1);
        let i = choose|i: int| 0 <= i < n - 1 && (#[trigger] pts[i]).z == lowest(pts, n - 1);
        assert(pts[i].z == lowest(pts, n - 1));
    }
    assert(!pts[n - 1].z.nan());
}

/// Where no elevation is NaN, the highest one is that of a point, and no point
/// lies higher.
pub proof fn law_highest_is_the_maximum(pts: Seq<LitePoint>, n: int)
    requires
        0 < n <= pts.len(),
        forall|i: int| 0 <= i < n ==> !(#[trigger] pts[i]).z.nan(),
    ensures
        exists|i: int| 0 <= i < n && (#[trigger] pts[i]).z == highest(pts, n),
        forall|i: int| 0 <= i < n ==> (#[trigger] pts[i]).z.at_most(highest(pts, n)),
    decreases n,
{
    reveal_with_fuel(highest, 2);
    if n > 1 {
        law_highest_is_the_maximum(pts, n - 1);
        let i = choose|i: int| 0 <= i < n - 1 && (#[trigger] pts[i]).z == highest(pts, n - 1);
        assert(pts[i].z == highest(pts, n - 1));
    }
    assert(!pts[n - 1].z.nan());
}

/// Without a ground model, heights are measured from one point of the block
/// below which none lies: no height is negative where a number less one that is
/// no greater is not negative. With one, each height is measured from the
/// ground at the point.
pub proof fn law_heights_are_above_the_ground(m: FeatureModel, pts: Seq<LitePoint>, i: int)
    requires
        0 <= i < pts.len(),
        forall|k: int| 0 <= k < pts.len() ==> !(#[trigger] pts[k]).z.nan(),
    ensures
        heights(m, pts).len() == pts.len(),
        (m.ground)(pts[i].x, pts[i].y) matches Some(z) ==> heights(m, pts)[i] == (m.difference)(
            pts[i].z,
            z,
        ),
        (m.ground)(pts[i].x, pts[i].y) is None ==> exists|k: int|
            0 <= k < pts.len() && heights(m, pts)[i] == (m.difference)(
                pts[i].z,
                (#[trigger] pts[k]).z,
            ) && forall|j: int| 0 <= j < pts.len() ==> pts[k].z.at_most((#[trigger] pts[j]).z),
        (m.ground)(pts[i].x, pts[i].y) is None && (forall|a: Real64, b: Real64|
            b.at_most(a) ==> (Real64 { bits: 0 }).at_most(#[trigger] (m.difference)(a, b)))
            ==> (Real64 { bits: 0 }).at_most(heights(m, pts)[i]),
{
    law_lowest_is_the_minimum(pts, pts.len() as int);
}

/// The range of a block's own elevations starts at its lowest point and ends at
/// its highest.
pub proof fn law_block_range_spans_the_block(m: FeatureModel, pts: Seq<LitePoint>, i: int)
    requires
        0 <= i < pts.len(),
        forall|k: int| 0 <= k < pts.len() ==> !(#[trigger] pts[k]).z.nan(),
    ensures
        elevation_range(m, ZNormalization::BlockMinMax, pts).0.at_most(pts[i].z),
        exists|lo: int, hi: int|
            0 <= lo < pts.len() && 0 <= hi < pts.len() && pts[i].z.at_most(
                (#[trigger] pts[hi]).z,
            ) && elevation_range(m, ZNormalization::BlockMinMax, pts) == (
                (#[trigger] pts[lo]).z,
                divisor((m.difference)(pts[hi].z, pts[lo].z)),
            ),
        forall|a: Real64, b: Real64|
            elevation_range(m, ZNormalization::Global { z_min: a, z_max: b }, pts) == (
                a,
                divisor(#[trigger] (m.difference)(b, a)),
            ),
{
    law_lowest_is_the_minimum(pts, pts.len() as int);
    law_highest_is_the_maximum(pts, pts.len() as int);
    let n = pts.len() as int;
    let lo = choose|i: int| 0 <= i < n && (#[trigger] pts[i]).z == lowest(pts, n);
    let hi = choose|i: int| 0 <= i < n && (#[trigger] pts[i]).z == highest(pts, n);
    assert(pts[lo].z == lowest(pts, n) && pts[hi].z == highest(pts, n));
}

/// No number is divided by less than the least divisor, and a greater divisor
/// stays as it is.
pub proof fn law_divisors_are_safe(x: Real64)
    ensures
        divisor(x).positive(),
        (Real64 { bits: LEAST_DIVISOR }).at_most(divisor(x)),
        (Real64 { bits: LEAST_DIVISOR }).at_most(x) ==> divisor(x) == x,
        divisor(x) == x || divisor(x) == (Real64 { bits: LEAST_DIVISOR }),
{
}

/// The 99th percentile is one of the values. No more than 99 of 100 steps from
/// the least to the greatest value lie below it, and more than 99 of 100 would
/// with one step more.
pub proof fn law_percentile_has_its_rank(values: Seq<Real64>)
    requires
        values.len() > 0,
        no_nan(values),
    ensures
        ({
            let v = percentile(values);
            let sorted = sorted_by(values, real_key());
            exists|at: int|
                0 <= at < values.len() && 100 * at <= 99 * (values.len() - 1) && 99 * (values.len()
                    - 1) < 100 * (at + 1) && v == #[trigger] sorted[at] && sorted.to_multiset()
                    == values.to_multiset() && (forall|i: int|
                    0 <= i <= at ==> (#[trigger] sorted[i]).key() <= v.key()) && forall|i: int|
                    at <= i < sorted.len() ==> v.key() <= (#[trigger] sorted[i]).key()
        }),
{
    broadcast use vstd::seq_lib::group_to_multiset_ensures;

    law_sorted_by(values, real_key());
    let at = percentile_place(values.len());
    let sorted = sorted_by(values, real_key());
    assert(sorted.len() == sorted.to_multiset().len() == values.len());
    let v = sorted[at];
    assert forall|i: int| 0 <= i <= at implies (#[trigger] sorted[i]).key() <= v.key() by {
        assert(real_key()(sorted[i]) <= real_key()(sorted[at]));
    }
    assert forall|i: int| at <= i < sorted.len() implies v.key() <= (#[trigger] sorted[i]).key() by {
        assert(real_key()(sorted[at]) <= real_key()(sorted[i]));
    }
}

/// Each feature of a point is made of its own attribute: the coordinates from
/// the corner of the square in edge lengths, the elevation in the range, the
/// intensity of 65535, the return of the returns, the angle either way of 90
/// degrees, and the height of the reference.
pub proof fn law_features_come_from_their_attributes(
    m: FeatureModel,
    pts: Seq<LitePoint>,
    heights: Seq<Real64>,
    square: BlockSquare,
    reference: Real64,
    z_min: Real64,
    z_max: Real64,
    i: int,
    angle: u32,
)
    requires
        0 <= i < pts.len(),
        pts[i].scan_angle == angle || pts[i].scan_angle == -angle,
    ensures
        ({
            let p = pts[i];
            let row = scalar_rows(
                m,
                pts,
                heights,
                square,
                HagNormalization::FixedMeters(reference),
                ZNormalization::Global { z_min, z_max },
            )[i];
            &&& row.len() == 7
            &&& row[0] == (m.narrow)(
                in_unit((m.quotient)((m.difference)(p.x, square.origin_x), square.size)),
            )
            &&& row[1] == (m.narrow)(
                in_unit((m.quotient)((m.difference)(p.y, square.origin_y), square.size)),
            )
            &&& row[2] == (m.narrow)(
                in_unit(
                    (m.quotient)((m.difference)(p.z, z_min), divisor((m.difference)(z_max, z_min))),
                ),
            )
            &&& row[3] == (m.narrow)(in_unit((m.ratio)(p.intensity as u32, 65535)))
            &&& p.number_of_returns == 0 ==> row[4] == 0
            &&& p.number_of_returns != 0 ==> row[4] == (m.narrow)(
                in_unit((m.ratio)(p.return_number as u32, p.number_of_returns as u32)),
            )
            &&& row[5] == (m.narrow)(in_unit((m.ratio)(angle, 90)))
            &&& row[6] == (m.narrow)(in_unit((m.quotient)(heights[i], divisor(reference))))
        }),
{
}

/// Normalised by the block's own heights, a height is divided by their 99th
/// percentile, and an elevation by the block's own range.
pub proof fn law_block_relative_features(
    m: FeatureModel,
    pts: Seq<LitePoint>,
    heights: Seq<Real64>,
    square: BlockSquare,
    i: int,
)
    requires
        0 <= i < pts.len(),
    ensures
        ({
            let row = scalar_rows(
                m,
                pts,
                heights,
                square,
                HagNormalization::BlockPercentile99,
                ZNormalization::BlockMinMax,
            )[i];
            let low = lowest(pts, pts.len() as int);
            let high = highest(pts, pts.len() as int);
            &&& row[2] == (m.narrow)(
                in_unit((m.quotient)((m.difference)(pts[i].z, low), divisor((m.difference)(high, low)))),
            )
            &&& row[6] == (m.narrow)(
                in_unit((m.quotient)(heights[i], divisor(percentile(heights)))),
            )
        }),
{
}

} // verus!
