//! The class with the highest score.

use vstd::prelude::*;

use crate::ieee::{Real32, Real64};

verus! {

/// Scores, of which some may be below others.
pub trait Score: Copy {
    spec fn below(self, other: Self) -> bool;

    fn is_below(self, other: Self) -> (r: bool)
        ensures
            r == self.below(other),
    ;
}

impl Score for Real64 {
    open spec fn below(self, other: Self) -> bool {
        self.less(other)
    }

    fn is_below(self, other: Self) -> (r: bool) {
        self.lt(other)
    }
}

impl Score for Real32 {
    open spec fn below(self, other: Self) -> bool {
        self.less(other)
    }

    fn is_below(self, other: Self) -> (r: bool) {
        self.lt(other)
    }
}

/// The position of the highest of the first `n` scores: each score takes over
/// unless it is below the highest so far. 0 where there is none.
pub open spec fn argmax<T: Score>(scores: Seq<T>, n: int) -> int
    decreases n,
{
    if n <= 1 {
        0
    } else {
        let best = argmax(scores, n - 1);
        if scores[n - 1].below(scores[best]) {
            best
        } else {
            n - 1
        }
    }
}

/// The position of the highest score; of equal ones, the last.
pub fn argmax_index<T: Score>(scores: &Vec<T>) -> (r: usize)
    ensures
        r == argmax(scores@, scores@.len() as int),
        scores@.len() > 0 ==> r < scores@.len(),
{
    let mut best: usize = 0;
    let mut i: usize = 1;
    while i < scores.len()
        invariant
            1 <= i,
            scores@.len() > 0 ==> i <= scores@.len() && best < i,
            scores@.len() == 0 ==> i == 1 && best == 0,
            best == argmax(scores@, i as int),
        decreases scores@.len() - i,
    {
        if !scores[i].is_below(scores[best]) {
            best = i;
        }
        i = i + 1;
    }
    best
}

proof fn lemma_argmax_by<T: Score>(scores: Seq<T>, key: spec_fn(T) -> int, n: int)
    requires
        0 < n <= scores.len(),
        forall|i: int, j: int|
            0 <= i < n && 0 <= j < n ==> (#[trigger] scores[i].below(scores[j])) == (key(scores[i])
                < key(scores[j])),
    ensures
        0 <= argmax(scores, n) < n,
        forall|i: int| 0 <= i < n ==> key(#[trigger] scores[i]) <= key(scores[argmax(scores, n)]),
        forall|i: int|
            argmax(scores, n) < i < n ==> key(#[trigger] scores[i]) < key(
                scores[argmax(scores, n)],
            ),
    decreases n,
{
    if n > 1 {
        lemma_argmax_by(scores, key, n - 1);
        let best = argmax(scores, n - 1);
        assert(scores[n - 1].below(scores[best]) == (key(scores[n - 1]) < key(scores[best])));
    }
}

/// Scores that are ordered in the same way have their highest in the same
/// place.
pub proof fn law_argmax_keeps_to_the_order<S: Score, T: Score>(a: Seq<S>, b: Seq<T>, n: int)
    requires
        n <= a.len(),
        n <= b.len(),
        forall|i: int, j: int|
            0 <= i < n && 0 <= j < n ==> (#[trigger] b[i].below(b[j])) == a[i].below(a[j]),
    ensures
        argmax(b, n) == argmax(a, n),
        n > 0 ==> 0 <= argmax(a, n) < n,
    decreases n,
{
    if n > 1 {
        law_argmax_keeps_to_the_order(a, b, n - 1);
        let best = argmax(a, n - 1);
        assert(b[n - 1].below(b[best]) == a[n - 1].below(a[best]));
    }
}

/// Where no score is NaN, none is higher than the one chosen, and each after
/// it is lower.
pub proof fn law_argmax_is_last_maximum(scores: Seq<Real64>)
    requires
        scores.len() > 0,
        forall|i: int| 0 <= i < scores.len() ==> !(#[trigger] scores[i]).nan(),
    ensures
        ({
            let best = argmax(scores, scores.len() as int);
            &&& 0 <= best < scores.len()
            &&& forall|i: int| 0 <= i < scores.len() ==> !scores[best].less(#[trigger] scores[i])
            &&& forall|i: int| best < i < scores.len() ==> (#[trigger] scores[i]).less(scores[best])
        }),
{
    lemma_argmax_by(scores, |x: Real64| x.key(), scores.len() as int);
}

/// The same for single-precision scores.
pub proof fn law_argmax_is_last_maximum_32(scores: Seq<Real32>)
    requires
        scores.len() > 0,
        forall|i: int| 0 <= i < scores.len() ==> !(#[trigger] scores[i]).nan(),
    ensures
        ({
            let best = argmax(scores, scores.len() as int);
            &&& 0 <= best < scores.len()
            &&& forall|i: int| 0 <= i < scores.len() ==> !scores[best].less(#[trigger] scores[i])
            &&& forall|i: int| best < i < scores.len() ==> (#[trigger] scores[i]).less(scores[best])
        }),
{
    lemma_argmax_by(scores, |x: Real32| x.key(), scores.len() as int);
}

} // verus!
