//! Numbers in ascending order.

use vstd::prelude::*;

use crate::ieee::Real64;
use crate::ordering::{lemma_place_by, place_by, sorted_by};

verus! {

/// Numbers are ordered by their values.
pub open spec fn real_key() -> spec_fn(Real64) -> int {
    |x: Real64| x.key()
}

/// None of the numbers is NaN.
pub open spec fn no_nan(values: Seq<Real64>) -> bool {
    forall|i: int| 0 <= i < values.len() ==> !(#[trigger] values[i]).nan()
}

fn insert_ascending(v: &mut Vec<Real64>, x: Real64)
    requires
        !x.nan(),
        no_nan(old(v)@),
    ensures
        final(v)@ == old(v)@.insert(place_by(old(v)@, real_key(), x), x),
        no_nan(final(v)@),
{
    let mut p: usize = v.len();
    assert(v@.take(p as int) =~= v@);
    while p > 0 && x.lt(v[p - 1])
        invariant
            p <= v@.len(),
            v@ == old(v)@,
            !x.nan(),
            no_nan(v@),
            place_by(v@, real_key(), x) == place_by(v@.take(p as int), real_key(), x),
        decreases p,
    {
        assert(v@.take(p as int).drop_last() =~= v@.take(p - 1));
        assert(v@.take(p as int).last() == v@[p - 1]);
        p = p - 1;
    }
    proof {
        if p > 0 {
            assert(v@.take(p as int).last() == v@[p - 1]);
        }
        assert(place_by(v@, real_key(), x) == p);
    }
    v.insert(p, x);
    proof {
        assert forall|k: int| 0 <= k < v@.len() implies !(#[trigger] v@[k]).nan() by {
            if k < p {
                assert(v@[k] == old(v)@[k]);
            } else if k > p {
                assert(v@[k] == old(v)@[k - 1]);
            }
        }
    }
}

/// The numbers in ascending order.
pub fn sort_reals(values: &Vec<Real64>) -> (r: Vec<Real64>)
    requires
        no_nan(values@),
    ensures
        r@ == sorted_by(values@, real_key()),
        r@.len() == values@.len(),
{
    let mut out: Vec<Real64> = Vec::new();
    let mut i: usize = 0;
    assert(values@.take(0) =~= Seq::empty());
    while i < values.len()
        invariant
            i <= values@.len(),
            no_nan(values@),
            no_nan(out@),
            out@.len() == i,
            out@ == sorted_by(values@.take(i as int), real_key()),
        decreases values@.len() - i,
    {
        let x = values[i];
        proof {
            assert(values@.take(i + 1).drop_last() =~= values@.take(i as int));
            assert(values@.take(i + 1).last() == x);
            lemma_place_by(out@, real_key(), x);
        }
        insert_ascending(&mut out, x);
        i = i + 1;
    }
    assert(values@.take(i as int) =~= values@);
    out
}

/// The number at this position of the ascending order.
pub fn nth_smallest(values: &Vec<Real64>, n: usize) -> (r: Real64)
    requires
        no_nan(values@),
        n < values@.len(),
    ensures
        r == sorted_by(values@, real_key())[n as int],
{
    let sorted = sort_reals(values);
    sorted[n]
}

/// The one or two numbers in the middle of the ascending order; both are the
/// same where there is one.
pub fn middle_pair(values: &Vec<Real64>) -> (r: (Real64, Real64))
    requires
        no_nan(values@),
        values@.len() > 0,
    ensures
        r.0 == sorted_by(values@, real_key())[(values@.len() - 1) / 2],
        r.1 == sorted_by(values@, real_key())[values@.len() as int / 2],
{
    let sorted = sort_reals(values);
    let n: usize = sorted.len();
    (sorted[(n - 1) / 2], sorted[n / 2])
}

} // verus!
