//! How central a place is to a block's square.

use vstd::prelude::*;

use crate::ieee::{Real64, ONE};
use crate::preprocessing::scalar_features::{clamp_unit, in_unit, law_features_are_in_unit_range};

verus! {

/// The arithmetic of centrality.
pub ghost struct CentralityModel {
    pub sum: spec_fn(Real64, Real64) -> Real64,
    pub difference: spec_fn(Real64, Real64) -> Real64,
    pub quotient: spec_fn(Real64, Real64) -> Real64,
    pub product: spec_fn(Real64, Real64) -> Real64,
}

/// The four functions compute as `m` says.
pub open spec fn computes_centrality<
    A: Fn(Real64, Real64) -> Real64,
    S: Fn(Real64, Real64) -> Real64,
    D: Fn(Real64, Real64) -> Real64,
    P: Fn(Real64, Real64) -> Real64,
>(sum: A, difference: S, quotient: D, product: P, m: CentralityModel) -> bool {
    &&& forall|a: Real64, b: Real64, r: Real64| #[trigger]
        call_ensures(sum, (a, b), r) ==> r == (m.sum)(a, b)
    &&& forall|a: Real64, b: Real64, r: Real64| #[trigger]
        call_ensures(difference, (a, b), r) ==> r == (m.difference)(a, b)
    &&& forall|a: Real64, b: Real64, r: Real64| #[trigger]
        call_ensures(quotient, (a, b), r) ==> r == (m.quotient)(a, b)
    &&& forall|a: Real64, b: Real64, r: Real64| #[trigger]
        call_ensures(product, (a, b), r) ==> r == (m.product)(a, b)
}

/// The larger of two numbers; the other one where one is NaN.
pub open spec fn larger(a: Real64, b: Real64) -> Real64 {
    if a.nan() || a.less(b) {
        b
    } else {
        a
    }
}

/// How far `v` lies outside the edge from `start` on, along one axis: zero
/// inside, else what it is short of the start or beyond the end.
pub open spec fn gap(m: CentralityModel, v: Real64, start: Real64, size: Real64) -> Real64 {
    let g = larger((m.difference)(start, v), (m.difference)(v, (m.sum)(start, size)));
    if g.positive() {
        g
    } else {
        Real64 { bits: 0 }
    }
}

/// The share of the reach that is left after the gap.
pub open spec fn axis_weight(m: CentralityModel, gap: Real64, reach: Real64) -> Real64 {
    in_unit((m.quotient)((m.difference)(reach, gap), reach))
}

/// The centrality of a place that misses a square by these gaps.
pub open spec fn weight_of(
    m: CentralityModel,
    gap_x: Real64,
    gap_y: Real64,
    reach: Real64,
) -> Real64 {
    if reach.at_most(Real64 { bits: 0 }) {
        if gap_x.positive() || gap_y.positive() {
            Real64 { bits: 0 }
        } else {
            Real64 { bits: ONE }
        }
    } else {
        (m.product)(axis_weight(m, gap_x, reach), axis_weight(m, gap_y, reach))
    }
}

fn gap_of<
    A: Fn(Real64, Real64) -> Real64,
    S: Fn(Real64, Real64) -> Real64,
>(v: Real64, start: Real64, size: Real64, sum: &A, difference: &S) -> (r: Real64)
    requires
        forall|a: Real64, b: Real64| #[trigger] call_requires(*sum, (a, b)),
        forall|a: Real64, b: Real64| #[trigger] call_requires(*difference, (a, b)),
    ensures
        exists|short: Real64, end: Real64, over: Real64|
            #![trigger call_ensures(*difference, (start, v), short), call_ensures(
                *difference,
                (v, end),
                over,
            )]
            call_ensures(*difference, (start, v), short) && call_ensures(*sum, (start, size), end)
                && call_ensures(*difference, (v, end), over) && r == if larger(
                short,
                over,
            ).positive() {
                larger(short, over)
            } else {
                Real64 { bits: 0 }
            },
{
    let short = difference(start, v);
    let end = sum(start, size);
    let over = difference(v, end);
    let g = if !short.le(short) || short.lt(over) {
        over
    } else {
        short
    };
    if g.is_positive() {
        g
    } else {
        Real64 { bits: 0 }
    }
}

/// How central the place `(x, y)` is to the square with the corner `(ox, oy)`
/// and the edge length `size`, from which it votes as far as `reach`: 1 inside,
/// falling to 0 at the reach, along both axes. Without a reach, 1 inside and 0
/// outside.
pub fn centrality_weight<
    A: Fn(Real64, Real64) -> Real64,
    S: Fn(Real64, Real64) -> Real64,
    D: Fn(Real64, Real64) -> Real64,
    P: Fn(Real64, Real64) -> Real64,
>(
    x: Real64,
    y: Real64,
    ox: Real64,
    oy: Real64,
    size: Real64,
    reach: Real64,
    sum: A,
    difference: S,
    quotient: D,
    product: P,
) -> (r: Real64)
    requires
        forall|a: Real64, b: Real64| #[trigger] call_requires(sum, (a, b)),
        forall|a: Real64, b: Real64| #[trigger] call_requires(difference, (a, b)),
        forall|a: Real64, b: Real64| #[trigger] call_requires(quotient, (a, b)),
        forall|a: Real64, b: Real64| #[trigger] call_requires(product, (a, b)),
    ensures
        forall|m: CentralityModel| #[trigger]
            computes_centrality(sum, difference, quotient, product, m) ==> r == weight_of(
                m,
                gap(m, x, ox, size),
                gap(m, y, oy, size),
                reach,
            ),
{
    let gap_x = gap_of(x, ox, size, &sum, &difference);
    let gap_y = gap_of(y, oy, size, &sum, &difference);
    if reach.le(Real64 { bits: 0 }) {
        return if gap_x.is_positive() || gap_y.is_positive() {
            Real64 { bits: 0 }
        } else {
            Real64 { bits: ONE }
        };
    }
    let wx = clamp_unit(quotient(difference(reach, gap_x), reach));
    let wy = clamp_unit(quotient(difference(reach, gap_y), reach));
    product(wx, wy)
}

/// Inside its square and on the edges a block argues at full strength, whatever
/// its reach. The arithmetic need only say that a positive number less zero is
/// once itself, and that 1 times 1 is 1.
pub proof fn law_plateau_inside(
    m: CentralityModel,
    x: Real64,
    y: Real64,
    ox: Real64,
    oy: Real64,
    size: Real64,
    reach: Real64,
)
    requires
        !reach.nan(),
        !(m.difference)(ox, x).positive(),
        !(m.difference)(x, (m.sum)(ox, size)).positive(),
        !(m.difference)(oy, y).positive(),
        !(m.difference)(y, (m.sum)(oy, size)).positive(),
        reach.positive() ==> (m.quotient)((m.difference)(reach, Real64 { bits: 0 }), reach) == (
        Real64 { bits: ONE }),
        (m.product)(Real64 { bits: ONE }, Real64 { bits: ONE }) == (Real64 { bits: ONE }),
    ensures
        weight_of(m, gap(m, x, ox, size), gap(m, y, oy, size), reach) == (Real64 { bits: ONE }),
{
}

/// A block has no weight at its reach and beyond, along either axis. The
/// arithmetic need only say that what is left of the reach is then not
/// positive, and that zero times a weight is zero.
pub proof fn law_no_weight_beyond_reach(
    m: CentralityModel,
    gap_x: Real64,
    gap_y: Real64,
    reach: Real64,
)
    requires
        reach.positive(),
        (m.quotient)((m.difference)(reach, gap_x), reach).at_most(Real64 { bits: 0 })
            || (m.quotient)((m.difference)(reach, gap_y), reach).at_most(Real64 { bits: 0 }),
        forall|a: Real64, b: Real64|
            !a.nan() && !b.nan() && (a.key() == 0 || b.key() == 0) ==> (#[trigger] (m.product)(
                a,
                b,
            )).at_most(Real64 { bits: 0 }),
        !axis_weight(m, gap_x, reach).nan(),
        !axis_weight(m, gap_y, reach).nan(),
    ensures
        weight_of(m, gap_x, gap_y, reach).at_most(Real64 { bits: 0 }),
{
}

/// A weight along an axis lies between 0 and 1.
pub proof fn law_axis_weight_in_range(m: CentralityModel, gap: Real64, reach: Real64)
    requires
        !(m.quotient)((m.difference)(reach, gap), reach).nan(),
    ensures
        (Real64 { bits: 0 }).at_most(axis_weight(m, gap, reach)),
        axis_weight(m, gap, reach).at_most(Real64 { bits: ONE }),
{
    law_features_are_in_unit_range((m.quotient)((m.difference)(reach, gap), reach));
}

/// How far a coordinate lies outside its block: never less than the distance to
/// either edge, and zero where neither is positive.
pub proof fn law_gap_is_the_distance_outside(
    m: CentralityModel,
    v: Real64,
    start: Real64,
    size: Real64,
)
    ensures
        ({
            let below = (m.difference)(start, v);
            let above = (m.difference)(v, (m.sum)(start, size));
            let g = gap(m, v, start, size);
            &&& !g.less(below)
            &&& !g.less(above)
            &&& !g.less(Real64 { bits: 0 }) && !g.nan()
            &&& g == below || g == above || g == (Real64 { bits: 0 })
            &&& g.positive() <==> below.positive() || above.positive()
        }),
{
}

/// Without reach only a point outside its block in neither direction has weight,
/// and it has full weight. With reach an axis's weight is the quotient of what
/// is left of the reach, where that lies between zero and one.
pub proof fn law_weight_fades_over_the_reach(
    m: CentralityModel,
    gap_x: Real64,
    gap_y: Real64,
    reach: Real64,
)
    ensures
        reach.at_most(Real64 { bits: 0 }) && !gap_x.positive() && !gap_y.positive() ==> weight_of(
            m,
            gap_x,
            gap_y,
            reach,
        ) == (Real64 { bits: ONE }),
        reach.at_most(Real64 { bits: 0 }) && (gap_x.positive() || gap_y.positive()) ==> weight_of(
            m,
            gap_x,
            gap_y,
            reach,
        ) == (Real64 { bits: 0 }),
        reach.positive() ==> ({
            let x = (m.quotient)((m.difference)(reach, gap_x), reach);
            let y = (m.quotient)((m.difference)(reach, gap_y), reach);
            (Real64 { bits: 0 }).at_most(x) && x.at_most(Real64 { bits: ONE }) && (Real64 {
                bits: 0,
            }).at_most(y) && y.at_most(Real64 { bits: ONE }) ==> weight_of(
                m,
                gap_x,
                gap_y,
                reach,
            ) == (m.product)(x, y)
        }),
{
}

} // verus!
