//! Sums and counts, for statements about tallies and selections.

use vstd::prelude::*;

verus! {

/// The sum of all numbers.
pub open spec fn sum_of(s: Seq<int>) -> int
    decreases s.len(),
{
    if s.len() == 0 {
        0
    } else {
        sum_of(s.drop_last()) + s.last()
    }
}

/// The places below `n` where `p` holds.
pub open spec fn places(p: spec_fn(int) -> bool, n: int) -> Set<int> {
    Set::new(|i: int| 0 <= i < n && p(i))
}

pub proof fn lemma_places_step(p: spec_fn(int) -> bool, n: int)
    ensures
        places(p, n).finite(),
        n <= 0 ==> places(p, n).len() == 0,
        n > 0 ==> places(p, n).len() == places(p, n - 1).len() + if p(n - 1) {
            1nat
        } else {
            0
        },
    decreases n,
{
    if n <= 0 {
        assert(places(p, n) =~= Set::empty());
    } else {
        lemma_places_step(p, n - 1);
        if p(n - 1) {
            assert(places(p, n) =~= places(p, n - 1).insert(n - 1));
        } else {
            assert(places(p, n) =~= places(p, n - 1));
        }
    }
}

pub proof fn lemma_sum_push(s: Seq<int>, x: int)
    ensures
        sum_of(s.push(x)) == sum_of(s) + x,
{
    assert(s.push(x).drop_last() =~= s);
}

/// `s` lists, in ascending order and once each, the numbers below `n` for which
/// `p` holds.
pub open spec fn selects(s: Seq<int>, p: spec_fn(int) -> bool, n: int) -> bool {
    &&& forall|j: int, k: int| 0 <= j < k < s.len() ==> #[trigger] s[j] < #[trigger] s[k]
    &&& forall|i: int| #[trigger] s.contains(i) <==> 0 <= i < n && p(i)
}

/// What a selection is after one more number was looked at.
pub proof fn lemma_selects_step(s: Seq<int>, p: spec_fn(int) -> bool, n: int)
    requires
        0 <= n,
        selects(s, p, n),
    ensures
        p(n) ==> selects(s.push(n), p, n + 1),
        !p(n) ==> selects(s, p, n + 1),
{
    if p(n) {
        let t = s.push(n);
        assert forall|j: int, k: int| 0 <= j < k < t.len() implies #[trigger] t[j]
            < #[trigger] t[k] by {
            assert(s.contains(s[j]));
        }
        assert forall|i: int| #[trigger] t.contains(i) <==> 0 <= i < n + 1 && p(i) by {
            if t.contains(i) {
                let k = choose|k: int| 0 <= k < t.len() && t[k] == i;
                if k < s.len() {
                    assert(s.contains(s[k]));
                }
            }
            if 0 <= i < n + 1 && p(i) {
                if i < n {
                    assert(s.contains(i));
                    let k = choose|k: int| 0 <= k < s.len() && s[k] == i;
                    assert(t[k] == i);
                } else {
                    assert(t[t.len() - 1] == i);
                }
            }
        }
    }
}

} // verus!
