//! From logits to probabilities, by a softmax with a temperature.
//!
//! The largest logit of a row is taken off each logit before it is
//! exponentiated, so no power exceeds one. The arithmetic on single numbers is
//! the caller's.

use vstd::prelude::*;

use crate::ieee::{Real32, Real64};
use crate::model::argmax::{
    argmax, law_argmax_is_last_maximum_32, law_argmax_keeps_to_the_order, Score,
};

verus! {

/// The arithmetic of a softmax.
pub ghost struct SoftmaxModel {
    /// The power of a logit, given the largest one and the temperature.
    pub power: spec_fn(Real32, Real32, Real64) -> Real64,
    /// A power in single precision.
    pub narrow: spec_fn(Real64) -> Real32,
    /// The sum of two numbers.
    pub sum: spec_fn(Real64, Real64) -> Real64,
    /// A narrowed power divided by the sum of the powers.
    pub share: spec_fn(Real32, Real64) -> Real32,
}

/// The four functions compute as `m` says.
pub open spec fn computes_softmax<
    P: Fn(Real32, Real32, Real64) -> Real64,
    N: Fn(Real64) -> Real32,
    A: Fn(Real64, Real64) -> Real64,
    D: Fn(Real32, Real64) -> Real32,
>(power: P, narrow: N, sum: A, share: D, m: SoftmaxModel) -> bool {
    &&& forall|v: Real32, max: Real32, t: Real64, x: Real64| #[trigger]
        call_ensures(power, (v, max, t), x) ==> x == (m.power)(v, max, t)
    &&& forall|e: Real64, x: Real32| #[trigger]
        call_ensures(narrow, (e,), x) ==> x == (m.narrow)(e)
    &&& forall|a: Real64, b: Real64, x: Real64| #[trigger]
        call_ensures(sum, (a, b), x) ==> x == (m.sum)(a, b)
    &&& forall|e: Real32, s: Real64, x: Real32| #[trigger]
        call_ensures(share, (e, s), x) ==> x == (m.share)(e, s)
}

/// The largest of the first `n` logits, which skips NaN; minus infinity where
/// there is none.
pub open spec fn largest(row: Seq<Real32>, n: int) -> Real32
    decreases n,
{
    if n <= 0 {
        Real32 { bits: 0xFF80_0000 }
    } else {
        let before = largest(row, n - 1);
        if before.less(row[n - 1]) {
            row[n - 1]
        } else {
            before
        }
    }
}

/// The power of a logit of the row.
pub open spec fn power_of(m: SoftmaxModel, row: Seq<Real32>, t: Real64, v: Real32) -> Real64 {
    (m.power)(v, largest(row, row.len() as int), t)
}

/// The powers of the first `n` logits, added up one after the other.
pub open spec fn power_sum(m: SoftmaxModel, row: Seq<Real32>, t: Real64, n: int) -> Real64
    decreases n,
{
    if n <= 0 {
        Real64 { bits: 0 }
    } else {
        (m.sum)(power_sum(m, row, t, n - 1), power_of(m, row, t, row[n - 1]))
    }
}

/// The probability of a logit of the row: its power as a share of the sum, or
/// the power itself where the sum is not finite or not positive.
pub open spec fn probability(m: SoftmaxModel, row: Seq<Real32>, t: Real64, v: Real32) -> Real32 {
    let s = power_sum(m, row, t, row.len() as int);
    let e = (m.narrow)(power_of(m, row, t, v));
    if s.finite() && s.positive() {
        (m.share)(e, s)
    } else {
        e
    }
}

/// The probabilities of a row of logits.
pub open spec fn probabilities(m: SoftmaxModel, row: Seq<Real32>, t: Real64) -> Seq<Real32> {
    row.map_values(|v: Real32| probability(m, row, t, v))
}

fn find_largest(row: &Vec<Real32>) -> (r: Real32)
    ensures
        r == largest(row@, row@.len() as int),
{
    let mut max = Real32 { bits: 0xFF80_0000 };
    let mut i: usize = 0;
    while i < row.len()
        invariant
            i <= row@.len(),
            max == largest(row@, i as int),
        decreases row@.len() - i,
    {
        if max.lt(row[i]) {
            max = row[i];
        }
        i = i + 1;
    }
    max
}

/// The probabilities of a row of logits at a temperature.
pub fn softmax_row<
    P: Fn(Real32, Real32, Real64) -> Real64,
    N: Fn(Real64) -> Real32,
    A: Fn(Real64, Real64) -> Real64,
    D: Fn(Real32, Real64) -> Real32,
>(
    row: &Vec<Real32>,
    temperature: Real64,
    power: &P,
    narrow: &N,
    sum: &A,
    share: &D,
) -> (r: Vec<Real32>)
    requires
        forall|v: Real32, max: Real32, t: Real64| #[trigger] call_requires(*power, (v, max, t)),
        forall|e: Real64| #[trigger] call_requires(*narrow, (e,)),
        forall|a: Real64, b: Real64| #[trigger] call_requires(*sum, (a, b)),
        forall|e: Real32, s: Real64| #[trigger] call_requires(*share, (e, s)),
    ensures
        r@.len() == row@.len(),
        forall|m: SoftmaxModel| #[trigger]
            computes_softmax(*power, *narrow, *sum, *share, m) ==> r@ == probabilities(
                m,
                row@,
                temperature,
            ),
{
    let max = find_largest(row);
    let mut powers: Vec<Real32> = Vec::new();
    let mut total = Real64 { bits: 0 };
    let mut i: usize = 0;
    while i < row.len()
        invariant
            i <= row@.len(),
            powers@.len() == i,
            max == largest(row@, row@.len() as int),
            forall|v: Real32, max: Real32, t: Real64| #[trigger] call_requires(*power, (v, max, t)),
            forall|e: Real64| #[trigger] call_requires(*narrow, (e,)),
            forall|a: Real64, b: Real64| #[trigger] call_requires(*sum, (a, b)),
            forall|m: SoftmaxModel| #[trigger]
                computes_softmax(*power, *narrow, *sum, *share, m) ==> {
                    &&& total == power_sum(m, row@, temperature, i as int)
                    &&& forall|k: int|
                        0 <= k < i ==> #[trigger] powers@[k] == (m.narrow)(
                            power_of(m, row@, temperature, row@[k]),
                        )
                },
        decreases row@.len() - i,
    {
        let e = power(row[i], max, temperature);
        powers.push(narrow(e));
        total = sum(total, e);
        i = i + 1;
    }
    if !total.is_finite() || !total.is_positive() {
        proof {
            assert forall|m: SoftmaxModel| #[trigger]
                computes_softmax(*power, *narrow, *sum, *share, m) implies powers@ == probabilities(
                m,
                row@,
                temperature,
            ) by {
                assert(powers@ =~= probabilities(m, row@, temperature));
            }
        }
        return powers;
    }
    let mut out: Vec<Real32> = Vec::new();
    let mut j: usize = 0;
    while j < powers.len()
        invariant
            j <= powers@.len(),
            out@.len() == j,
            forall|e: Real32, s: Real64| #[trigger] call_requires(*share, (e, s)),
            forall|m: SoftmaxModel, k: int|
                0 <= k < j && #[trigger] computes_softmax(*power, *narrow, *sum, *share, m)
                    ==> #[trigger] out@[k] == (m.share)(powers@[k], total),
        decreases powers@.len() - j,
    {
        out.push(share(powers[j], total));
        j = j + 1;
    }
    proof {
        assert forall|m: SoftmaxModel| #[trigger]
            computes_softmax(*power, *narrow, *sum, *share, m) implies out@ == probabilities(
            m,
            row@,
            temperature,
        ) by {
            assert(out@ =~= probabilities(m, row@, temperature));
        }
    }
    out
}

/// The largest logit is one of the row, and no other is larger.
pub proof fn law_largest_is_not_exceeded(row: Seq<Real32>, n: int)
    requires
        0 < n <= row.len(),
        forall|i: int| 0 <= i < row.len() ==> !(#[trigger] row[i]).nan(),
    ensures
        row.contains(largest(row, n)),
        forall|i: int| 0 <= i < n ==> !largest(row, n).less(#[trigger] row[i]),
    decreases n,
{
    reveal_with_fuel(largest, 2);
    assert(row.contains(row[n - 1]));
    if n > 1 {
        law_largest_is_not_exceeded(row, n - 1);
    }
}

/// Where the probabilities of a row are ordered as its logits are, a row votes
/// for the class of its largest logit, the last of equal ones.
pub proof fn law_vote_keeps_the_largest_logit(m: SoftmaxModel, row: Seq<Real32>, t: Real64)
    requires
        forall|i: int, j: int|
            0 <= i < row.len() && 0 <= j < row.len() ==> probability(m, row, t, row[i]).less(
                probability(m, row, t, row[j]),
            ) == #[trigger] row[i].less(#[trigger] row[j]),
    ensures
        argmax(probabilities(m, row, t), row.len() as int) == argmax(row, row.len() as int),
{
    let p = probabilities(m, row, t);
    assert forall|i: int, j: int|
        0 <= i < row.len() && 0 <= j < row.len() implies #[trigger] p[i].below(#[trigger] p[j])
        == row[i].below(row[j]) by {
        assert(row[i].less(row[j]) == row[i].below(row[j]));
    }
    law_argmax_keeps_to_the_order(row, p, row.len() as int);
}

/// Where no probability of a row is smaller than that of a smaller logit, no
/// class is more probable than that of the largest logit. Logits that are
/// close together may then share a probability.
pub proof fn law_largest_logit_is_most_probable(m: SoftmaxModel, row: Seq<Real32>, t: Real64)
    requires
        row.len() > 0,
        forall|i: int| 0 <= i < row.len() ==> !(#[trigger] row[i]).nan(),
        forall|i: int, j: int|
            0 <= i < row.len() && 0 <= j < row.len() && !(#[trigger] row[j]).less(
                #[trigger] row[i],
            ) ==> !probability(m, row, t, row[j]).less(probability(m, row, t, row[i])),
    ensures
        ({
            let best = argmax(row, row.len() as int);
            let p = probabilities(m, row, t);
            &&& 0 <= best < row.len()
            &&& forall|i: int| 0 <= i < row.len() ==> !p[best].less(#[trigger] p[i])
        }),
{
    law_argmax_is_last_maximum_32(row);
    let best = argmax(row, row.len() as int);
    let p = probabilities(m, row, t);
    assert forall|i: int| 0 <= i < row.len() implies !p[best].less(#[trigger] p[i]) by {
        assert(!row[best].less(row[i]));
    }
}

/// Each power is taken relative to a logit that none exceeds. A probability is
/// its power's share of the sum of all powers, added in order from zero; where
/// that sum is not a positive finite number it is the power itself.
pub proof fn law_probabilities_are_shares(m: SoftmaxModel, row: Seq<Real32>, t: Real64) -> (top: int)
    requires
        row.len() > 0,
        forall|i: int| 0 <= i < row.len() ==> !(#[trigger] row[i]).nan(),
    ensures
        0 <= top < row.len(),
        forall|i: int| 0 <= i < row.len() ==> !row[top].less(#[trigger] row[i]),
        power_sum(m, row, t, 0) == (Real64 { bits: 0 }),
        forall|i: int|
            0 <= i < row.len() ==> power_sum(m, row, t, i + 1) == (m.sum)(
                power_sum(m, row, t, i),
                (m.power)(#[trigger] row[i], row[top], t),
            ),
        probabilities(m, row, t).len() == row.len(),
        ({
            let all = power_sum(m, row, t, row.len() as int);
            forall|i: int|
                0 <= i < row.len() ==> probabilities(m, row, t)[i] == if all.finite()
                    && all.positive() {
                    (m.share)((m.narrow)((m.power)(#[trigger] row[i], row[top], t)), all)
                } else {
                    (m.narrow)((m.power)(row[i], row[top], t))
                }
        }),
{
    law_largest_is_not_exceeded(row, row.len() as int);
    row.index_of(largest(row, row.len() as int))
}

} // verus!
