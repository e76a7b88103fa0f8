//! Local elevation residual outlier filter.
//!
//! A point is removed where its height deviates too far from that of its
//! neighbours. Points without neighbours stay.

use vstd::prelude::*;

use crate::counting::{lemma_places_step, places};
use crate::ieee::Real64;

verus! {

/// How far the height of each point deviates from that of its neighbours;
/// none where it has no neighbours.
pub type ResidualModel = spec_fn(usize) -> Option<Real64>;

/// `f` computes deviations as `m` says.
pub open spec fn computes_residuals<F: Fn(usize) -> Option<Real64>>(
    f: F,
    m: ResidualModel,
) -> bool {
    forall|i: usize, r: Option<Real64>| #[trigger] call_ensures(f, (i,), r) ==> r == m(i)
}

/// Whether a point with this deviation stays: it has no neighbours, or deviates
/// by less than the threshold.
pub open spec fn stays(residual: Option<Real64>, elev_diff: Real64) -> bool {
    match residual {
        Some(d) => d.less(elev_diff),
        None => true,
    }
}

/// The positions of the points that stay, of the first `n`.
pub open spec fn kept(m: ResidualModel, elev_diff: Real64, n: int) -> Seq<usize>
    decreases n,
{
    if n <= 0 {
        Seq::empty()
    } else if stays(m((n - 1) as usize), elev_diff) {
        kept(m, elev_diff, n - 1).push((n - 1) as usize)
    } else {
        kept(m, elev_diff, n - 1)
    }
}

/// The positions of the points that stay: those without neighbours, and those
/// whose deviation is below the threshold.
pub fn apply<F: Fn(usize) -> Option<Real64>>(
    n_points: usize,
    elev_diff: Real64,
    residual: F,
) -> (r: Vec<usize>)
    requires
        forall|i: usize| i < n_points ==> #[trigger] call_requires(residual, (i,)),
    ensures
        forall|m: ResidualModel| #[trigger]
            computes_residuals(residual, m) ==> r@ == kept(m, elev_diff, n_points as int),
{
    let mut out: Vec<usize> = Vec::new();
    let mut i: usize = 0;
    while i < n_points
        invariant
            i <= n_points,
            forall|k: usize| k < n_points ==> #[trigger] call_requires(residual, (k,)),
            forall|m: ResidualModel| #[trigger]
                computes_residuals(residual, m) ==> out@ == kept(m, elev_diff, i as int),
        decreases n_points - i,
    {
        let keep: bool = match residual(i) {
            Some(d) => d.lt(elev_diff),
            None => true,
        };
        if keep {
            out.push(i);
        }
        i = i + 1;
    }
    out
}

/// A point is among those that stay exactly where it has no neighbours or
/// deviates by less than the threshold; those that stay keep their order.
pub proof fn law_stays_or_goes(m: ResidualModel, elev_diff: Real64, n: int)
    requires
        0 <= n <= usize::MAX,
    ensures
        forall|i: usize|
            kept(m, elev_diff, n).contains(i) <==> i < n && #[trigger] stays(m(i), elev_diff),
        forall|j: int, k: int|
            0 <= j < k < kept(m, elev_diff, n).len() ==> kept(m, elev_diff, n)[j] < kept(
                m,
                elev_diff,
                n,
            )[k],
    decreases n,
{
    if n > 0 {
        law_stays_or_goes(m, elev_diff, n - 1);
        let last = (n - 1) as usize;
        let before = kept(m, elev_diff, n - 1);
        let now = kept(m, elev_diff, n);
        assert forall|j: int| 0 <= j < before.len() implies (#[trigger] before[j]) < last by {
            assert(before.contains(before[j]));
            assert(stays(m(before[j]), elev_diff));
        }
        assert forall|i: usize| now.contains(i) <==> i < n && #[trigger] stays(
            m(i),
            elev_diff,
        ) by {
            if before.contains(i) {
                let j = choose|j: int| 0 <= j < before.len() && before[j] == i;
                assert(now[j] == i);
            }
            if stays(m(last), elev_diff) {
                assert(now[now.len() - 1] == last);
            }
            if now.contains(i) {
                let j = choose|j: int| 0 <= j < now.len() && now[j] == i;
                if j < before.len() {
                    assert(before[j] == i);
                }
            }
        }
    }
}

/// Every position but this one.
pub open spec fn others(own: usize) -> spec_fn(usize) -> bool {
    |i: usize| i != own
}

/// The heights of the neighbours that were found, the point itself left out.
pub open spec fn heights_of(heights: Seq<Real64>, found: Seq<usize>, own: usize) -> Seq<Real64> {
    found.filter(others(own)).map_values(|i: usize| heights[i as int])
}

/// The heights of the neighbours that were found, the point itself left out.
pub fn neighbour_heights(heights: &Vec<Real64>, found: &Vec<usize>, own: usize) -> (r: Vec<Real64>)
    requires
        forall|i: int| 0 <= i < found@.len() ==> (#[trigger] found@[i]) < heights@.len(),
    ensures
        r@ == heights_of(heights@, found@, own),
{
    let ghost keep = others(own);
    let mut out: Vec<Real64> = Vec::new();
    let mut i: usize = 0;
    assert(found@.take(0).filter(keep) =~= Seq::empty()) by {
        reveal(Seq::filter);
    }
    while i < found.len()
        invariant
            i <= found@.len(),
            forall|k: int| 0 <= k < found@.len() ==> (#[trigger] found@[k]) < heights@.len(),
            keep == others(own),
            out@ =~= found@.take(i as int).filter(keep).map_values(|k: usize| heights@[k as int]),
        decreases found@.len() - i,
    {
        if found[i] != own {
            out.push(heights[found[i]]);
        }
        proof {
            let t = found@.take(i + 1);
            assert(t.drop_last() =~= found@.take(i as int));
            assert(t.last() == found@[i as int]);
            reveal(Seq::filter);
            assert(out@ =~= t.filter(keep).map_values(|k: usize| heights@[k as int]));
        }
        i = i + 1;
    }
    assert(found@.take(i as int) =~= found@);
    assert(out@ =~= heights_of(heights@, found@, own));
    out
}

/// A point stays where it has no neighbours to be compared with, and where it
/// is nearer to them than the limit; the others go.
pub proof fn law_only_near_points_stay(m: ResidualModel, elev_diff: Real64, n: int, i: usize)
    requires
        0 <= n <= usize::MAX,
        i < n,
    ensures
        m(i) is None ==> kept(m, elev_diff, n).contains(i),
        m(i) matches Some(d) ==> (kept(m, elev_diff, n).contains(i) <==> !d.nan()
            && !elev_diff.nan() && d.key() < elev_diff.key()),
{
    law_stays_or_goes(m, elev_diff, n);
    assert(kept(m, elev_diff, n).contains(i) <==> i < n && stays(m(i), elev_diff));
}

/// The heights that a point is compared with are those of all points found but
/// itself.
pub proof fn law_a_point_is_not_its_own_neighbour(
    heights: Seq<Real64>,
    found: Seq<usize>,
    own: usize,
)
    ensures
        heights_of(heights, found, own).len() == places(
            |i: int| found[i] != own,
            found.len() as int,
        ).len(),
        forall|k: int|
            0 <= k < found.len() && #[trigger] found[k] != own ==> heights_of(
                heights,
                found,
                own,
            ).contains(heights[found[k] as int]),
    decreases found.len(),
{
    let p = |i: int| found[i] != own;
    lemma_places_step(p, found.len() as int);
    reveal(Seq::filter);
    if found.len() > 0 {
        let d = found.drop_last();
        law_a_point_is_not_its_own_neighbour(heights, d, own);
        assert(places(|i: int| d[i] != own, d.len() as int) =~= places(p, d.len() as int));
        let before = heights_of(heights, d, own);
        let all = heights_of(heights, found, own);
        if found.last() != own {
            assert(all =~= before.push(heights[found.last() as int]));
        } else {
            assert(all =~= before);
        }
        assert forall|k: int| 0 <= k < found.len() && #[trigger] found[k] != own implies all.contains(
            heights[found[k] as int],
        ) by {
            if k < d.len() {
                assert(d[k] == found[k]);
                let x = heights[d[k] as int];
                let j = choose|j: int| 0 <= j < before.len() && before[j] == x;
                assert(all[j] == x);
            } else {
                assert(all[all.len() - 1] == heights[found[k] as int]);
            }
        }
    }
}

} // verus!
