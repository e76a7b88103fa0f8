//! Adaptive-radius neighbourhood search.

use vstd::prelude::*;

use crate::ieee::Real64;

verus! {

/// What is found within a radius.
pub type SearchModel = spec_fn(Real64) -> Seq<usize>;

/// `f` searches as `m` says.
pub open spec fn searches<F: Fn(Real64) -> Vec<usize>>(f: F, m: SearchModel) -> bool {
    forall|radius: Real64, r: Vec<usize>| #[trigger]
        call_ensures(f, (radius,), r) ==> r@ == m(radius)
}

/// What the first radius from `from` on finds that finds enough; else what the
/// last one finds.
pub open spec fn first_enough(
    m: SearchModel,
    radii: Seq<Real64>,
    min_neighbors: nat,
    from: int,
) -> Seq<usize>
    decreases radii.len() - from,
{
    if from >= radii.len() - 1 || m(radii[from]).len() >= min_neighbors {
        m(radii[from])
    } else {
        first_enough(m, radii, min_neighbors, from + 1)
    }
}

/// Searches within growing radii until enough neighbours are found or the last
/// radius is reached.
pub fn adaptive_radius_search<F: Fn(Real64) -> Vec<usize>>(
    radii: &Vec<Real64>,
    min_neighbors: usize,
    search: F,
) -> (r: Vec<usize>)
    requires
        radii@.len() > 0,
        forall|radius: Real64| #[trigger] call_requires(search, (radius,)),
    ensures
        forall|m: SearchModel| #[trigger]
            searches(search, m) ==> r@ == first_enough(m, radii@, min_neighbors as nat, 0),
{
    let last: usize = radii.len() - 1;
    let mut i: usize = 0;
    while i < last
        invariant
            i <= last == radii@.len() - 1,
            forall|radius: Real64| #[trigger] call_requires(search, (radius,)),
            forall|m: SearchModel| #[trigger]
                searches(search, m) ==> first_enough(m, radii@, min_neighbors as nat, 0)
                    == first_enough(m, radii@, min_neighbors as nat, i as int),
        decreases last - i,
    {
        let found = search(radii[i]);
        if found.len() >= min_neighbors {
            return found;
        }
        i = i + 1;
    }
    search(radii[last])
}

/// The search stops at the first radius that finds enough points, or at the
/// last radius.
pub proof fn law_first_radius_with_enough(
    m: SearchModel,
    radii: Seq<Real64>,
    min_neighbors: nat,
    from: int,
)
    requires
        0 <= from < radii.len(),
    ensures
        exists|k: int|
            from <= k < radii.len() && first_enough(m, radii, min_neighbors, from) == m(
                #[trigger] radii[k],
            ) && (m(radii[k]).len() >= min_neighbors || k == radii.len() - 1) && forall|j: int|
                from <= j < k ==> m(#[trigger] radii[j]).len() < min_neighbors,
    decreases radii.len() - from,
{
    if from < radii.len() - 1 && m(radii[from]).len() < min_neighbors {
        law_first_radius_with_enough(m, radii, min_neighbors, from + 1);
        let k = choose|k: int|
            from + 1 <= k < radii.len() && first_enough(m, radii, min_neighbors, from + 1) == m(
                #[trigger] radii[k],
            ) && (m(radii[k]).len() >= min_neighbors || k == radii.len() - 1) && forall|j: int|
                from + 1 <= j < k ==> m(#[trigger] radii[j]).len() < min_neighbors;
        assert(m(radii[k]).len() >= min_neighbors || k == radii.len() - 1);
    } else {
        assert(first_enough(m, radii, min_neighbors, from) == m(radii[from]));
    }
}

} // verus!
