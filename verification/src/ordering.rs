//! A deterministic shuffle and a stable sort.

use vstd::prelude::*;

verus! {

/// One step of the generator behind [`seeded_shuffle`].
pub open spec fn xorshift(state: u64) -> u64 {
    let a = state ^ (state << 13u64);
    let b = a ^ (a >> 7u64);
    b ^ (b << 17u64)
}

/// `s` with the elements at `i` and `j` exchanged.
pub open spec fn swapped<T>(s: Seq<T>, i: int, j: int) -> Seq<T> {
    s.update(i, s[j]).update(j, s[i])
}

/// The Fisher-Yates shuffle of positions `0..=i`, drawing from `state`.
pub open spec fn shuffled_from<T>(s: Seq<T>, state: u64, i: int) -> Seq<T>
    decreases i,
{
    if i <= 0 {
        s
    } else {
        let next = xorshift(state);
        shuffled_from(swapped(s, i, next as int % (i + 1)), next, i - 1)
    }
}

/// The order in which [`seeded_shuffle`] leaves `s`.
pub open spec fn shuffled<T>(s: Seq<T>, seed: u64) -> Seq<T> {
    shuffled_from(s, seed ^ 0x9E37_79B9_7F4A_7C15u64, s.len() - 1)
}

/// Small, deterministic, non-cryptographic seeded shuffle. It only breaks ties
/// before the stable sort that drives the order of assignment.
pub fn seeded_shuffle<T: Copy>(items: &mut Vec<T>, seed: u64)
    ensures
        final(items)@ == shuffled(old(items)@, seed),
{
    let mut state: u64 = seed ^ 0x9E37_79B9_7F4A_7C15u64;
    let n: usize = items.len();
    if n == 0 {
        return;
    }
    let mut i: usize = n - 1;
    while i > 0
        invariant
            i < n,
            items@.len() == n,
            shuffled_from(items@, state, i as int) == shuffled(old(items)@, seed),
        decreases i,
    {
        state = state ^ (state << 13u64);
        state = state ^ (state >> 7u64);
        state = state ^ (state << 17u64);
        let j: usize = (state % (i as u64 + 1)) as usize;
        let a: T = items[i];
        let b: T = items[j];
        items.set(i, b);
        items.set(j, a);
        i = i - 1;
    }
}

proof fn lemma_swapped_multiset<T>(s: Seq<T>, i: int, j: int)
    requires
        0 <= i < s.len(),
        0 <= j < s.len(),
    ensures
        swapped(s, i, j).to_multiset() == s.to_multiset(),
{
    broadcast use vstd::seq_lib::group_to_multiset_ensures;

    let t = s.update(i, s[j]);
    vstd::seq_lib::to_multiset_update(s, i, s[j]);
    vstd::seq_lib::to_multiset_update(t, j, s[i]);
    assert(s.to_multiset().count(s[i]) > 0) by {
        assert(s.contains(s[i]));
    }
    assert(t.to_multiset() == s.to_multiset().insert(s[j]).remove(s[i]));
    assert(t[j] == s[j]);
    assert(t.to_multiset().insert(s[i]).remove(s[j]) =~= s.to_multiset());
}

/// A shuffle loses nothing and adds nothing.
pub proof fn law_shuffle_permutes<T>(s: Seq<T>, seed: u64)
    ensures
        shuffled(s, seed).to_multiset() == s.to_multiset(),
        shuffled(s, seed).len() == s.len(),
{
    lemma_shuffled_from_permutes(s, seed ^ 0x9E37_79B9_7F4A_7C15u64, s.len() - 1);
}

proof fn lemma_shuffled_from_permutes<T>(s: Seq<T>, state: u64, i: int)
    requires
        i < s.len(),
    ensures
        shuffled_from(s, state, i).to_multiset() == s.to_multiset(),
        shuffled_from(s, state, i).len() == s.len(),
    decreases i,
{
    if i > 0 {
        let next = xorshift(state);
        let j = next as int % (i + 1);
        lemma_swapped_multiset(s, i, j);
        lemma_shuffled_from_permutes(swapped(s, i, j), next, i - 1);
    }
}

// ── Stable sort, largest key first ──────────────────────────────────────────

/// `order` with `x` put in behind everything whose key is not smaller.
pub open spec fn insert_desc(order: Seq<usize>, keys: Seq<u64>, x: usize) -> Seq<usize>
    decreases order.len(),
{
    if order.len() > 0 && keys[order.last() as int] < keys[x as int] {
        insert_desc(order.drop_last(), keys, x).push(order.last())
    } else {
        order.push(x)
    }
}

/// `order` sorted by descending key; equal keys keep their order.
pub open spec fn sorted_desc(order: Seq<usize>, keys: Seq<u64>) -> Seq<usize>
    decreases order.len(),
{
    if order.len() == 0 {
        Seq::empty()
    } else {
        insert_desc(sorted_desc(order.drop_last(), keys), keys, order.last())
    }
}

pub open spec fn is_desc(order: Seq<usize>, keys: Seq<u64>) -> bool {
    forall|i: int, j: int|
        0 <= i < j < order.len() ==> keys[#[trigger] order[i] as int]
            >= keys[#[trigger] order[j] as int]
}

proof fn lemma_insert_desc_at(order: Seq<usize>, keys: Seq<u64>, x: usize, p: int)
    requires
        0 <= p <= order.len(),
        forall|i: int| p <= i < order.len() ==> keys[#[trigger] order[i] as int] < keys[x as int],
        p > 0 ==> keys[order[p - 1] as int] >= keys[x as int],
    ensures
        insert_desc(order, keys, x) == order.insert(p, x),
    decreases order.len(),
{
    if p == order.len() {
        assert(order.insert(p, x) =~= order.push(x));
    } else {
        assert(order.last() == order[order.len() - 1]);
        lemma_insert_desc_at(order.drop_last(), keys, x, p);
        assert(order.insert(p, x) =~= order.drop_last().insert(p, x).push(order.last()));
    }
}

/// Sorts `order`, a list of positions in `keys`, by descending key. The sort
/// is stable.
pub fn sort_desc(order: &Vec<usize>, keys: &Vec<u64>) -> (r: Vec<usize>)
    requires
        forall|i: int| 0 <= i < order@.len() ==> #[trigger] order@[i] < keys@.len(),
    ensures
        r@ == sorted_desc(order@, keys@),
{
    let mut out: Vec<usize> = Vec::new();
    let mut i: usize = 0;
    assert(order@.take(0) =~= Seq::empty());
    while i < order.len()
        invariant
            i <= order@.len(),
            forall|k: int| 0 <= k < order@.len() ==> #[trigger] order@[k] < keys@.len(),
            forall|k: int| 0 <= k < out@.len() ==> #[trigger] out@[k] < keys@.len(),
            out@ == sorted_desc(order@.take(i as int), keys@),
        decreases order@.len() - i,
    {
        let x: usize = order[i];
        let mut p: usize = out.len();
        while p > 0 && keys[out[p - 1]] < keys[x]
            invariant
                x < keys@.len(),
                p <= out@.len(),
                forall|k: int| 0 <= k < out@.len() ==> #[trigger] out@[k] < keys@.len(),
                forall|k: int|
                    p <= k < out@.len() ==> keys@[#[trigger] out@[k] as int] < keys@[x as int],
            decreases p,
        {
            p = p - 1;
        }
        proof {
            lemma_insert_desc_at(out@, keys@, x, p as int);
            assert(order@.take(i + 1).drop_last() =~= order@.take(i as int));
            assert(order@.take(i + 1).last() == x);
        }
        out.insert(p, x);
        i = i + 1;
    }
    assert(order@.take(i as int) =~= order@);
    out
}

proof fn lemma_insert_desc_permutes(order: Seq<usize>, keys: Seq<u64>, x: usize)
    ensures
        insert_desc(order, keys, x).to_multiset() == order.to_multiset().insert(x),
        insert_desc(order, keys, x).len() == order.len() + 1,
    decreases order.len(),
{
    broadcast use vstd::seq_lib::group_to_multiset_ensures;

    if order.len() > 0 && keys[order.last() as int] < keys[x as int] {
        lemma_insert_desc_permutes(order.drop_last(), keys, x);
        assert(order =~= order.drop_last().push(order.last()));
        assert(insert_desc(order, keys, x).to_multiset() =~= order.to_multiset().insert(x));
    }
}

proof fn lemma_insert_desc_sorted(order: Seq<usize>, keys: Seq<u64>, x: usize)
    requires
        is_desc(order, keys),
    ensures
        is_desc(insert_desc(order, keys, x), keys),
        forall|k: int|
            0 <= k < insert_desc(order, keys, x).len() ==> (#[trigger] insert_desc(
                order,
                keys,
                x,
            )[k] == x || order.contains(insert_desc(order, keys, x)[k])),
    decreases order.len(),
{
    let r = insert_desc(order, keys, x);
    if order.len() > 0 && keys[order.last() as int] < keys[x as int] {
        let d = order.drop_last();
        lemma_insert_desc_sorted(d, keys, x);
        let rd = insert_desc(d, keys, x);
        assert forall|k: int| 0 <= k < rd.len() implies keys[#[trigger] rd[k] as int]
            >= keys[order.last() as int] by {
            if rd[k] != x {
                let m = choose|m: int| 0 <= m < d.len() && d[m] == rd[k];
                assert(order[m] == d[m]);
                assert(order[order.len() - 1] == order.last());
            }
        }
        assert forall|k: int| 0 <= k < r.len() implies (#[trigger] r[k] == x || order.contains(
            r[k],
        )) by {
            if k < rd.len() {
                assert(r[k] == rd[k]);
                if rd[k] != x {
                    let m = choose|m: int| 0 <= m < d.len() && d[m] == rd[k];
                    assert(order[m] == rd[k]);
                }
            } else {
                assert(order[order.len() - 1] == r[k]);
            }
        }
    } else {
        assert forall|k: int| 0 <= k < r.len() implies (#[trigger] r[k] == x || order.contains(
            r[k],
        )) by {
            if k < order.len() {
                assert(order[k] == r[k]);
            }
        }
        assert forall|i: int, j: int| 0 <= i < j < r.len() implies keys[#[trigger] r[i] as int]
            >= keys[#[trigger] r[j] as int] by {
            if j == order.len() {
                assert(order[i] == r[i]);
                if i < order.len() - 1 {
                    assert(keys[order[i] as int] >= keys[order[order.len() - 1] as int]);
                }
            }
        }
    }
}

proof fn lemma_insert_desc_stable(order: Seq<usize>, keys: Seq<u64>, x: usize, key: u64)
    requires
        is_desc(order, keys),
    ensures
        insert_desc(order, keys, x).filter(|i: usize| keys[i as int] == key) == order.push(
            x,
        ).filter(|i: usize| keys[i as int] == key),
    decreases order.len(),
{
    let f = |i: usize| keys[i as int] == key;
    if order.len() > 0 && keys[order.last() as int] < keys[x as int] {
        let d = order.drop_last();
        assert(is_desc(d, keys)) by {
            assert forall|i: int, j: int| 0 <= i < j < d.len() implies keys[#[trigger] d[i] as int]
                >= keys[#[trigger] d[j] as int] by {
                assert(order[i] == d[i] && order[j] == d[j]);
            }
        }
        lemma_insert_desc_stable(d, keys, x, key);
        reveal_with_fuel(Seq::filter, 3);
        let r = insert_desc(order, keys, x);
        assert(r.drop_last() =~= insert_desc(d, keys, x));
        assert(order.push(x).drop_last() =~= order);
        assert(d.push(x).drop_last() =~= d);
    }
}

/// Sorting keeps every entry, puts larger keys first, and leaves entries with
/// the same key in the order they had.
pub proof fn law_sort_is_stable(order: Seq<usize>, keys: Seq<u64>, key: u64)
    ensures
        sorted_desc(order, keys).to_multiset() == order.to_multiset(),
        sorted_desc(order, keys).len() == order.len(),
        is_desc(sorted_desc(order, keys), keys),
        sorted_desc(order, keys).filter(|i: usize| keys[i as int] == key) == order.filter(
            |i: usize| keys[i as int] == key,
        ),
    decreases order.len(),
{
    broadcast use vstd::seq_lib::group_to_multiset_ensures;

    if order.len() > 0 {
        let d = order.drop_last();
        law_sort_is_stable(d, keys, key);
        let sd = sorted_desc(d, keys);
        lemma_insert_desc_permutes(sd, keys, order.last());
        lemma_insert_desc_sorted(sd, keys, order.last());
        lemma_insert_desc_stable(sd, keys, order.last(), key);
        assert(order =~= d.push(order.last()));
        reveal_with_fuel(Seq::filter, 2);
        assert(sd.push(order.last()).drop_last() =~= sd);
        assert(d.push(order.last()).drop_last() =~= d);
    } else {
        reveal_with_fuel(Seq::filter, 2);
        assert(sorted_desc(order, keys) =~= order);
    }
}

// ── Stable sort by an integer key ───────────────────────────────────────────

/// How many leading items of `s` have a key of at most that of `x`.
pub open spec fn place_by<T>(s: Seq<T>, key: spec_fn(T) -> int, x: T) -> int
    decreases s.len(),
{
    if s.len() == 0 {
        0
    } else if key(s.last()) <= key(x) {
        s.len() as int
    } else {
        place_by(s.drop_last(), key, x)
    }
}

/// The items in ascending order of their keys; items with the same key keep
/// their order.
pub open spec fn sorted_by<T>(s: Seq<T>, key: spec_fn(T) -> int) -> Seq<T>
    decreases s.len(),
{
    if s.len() == 0 {
        Seq::empty()
    } else {
        let before = sorted_by(s.drop_last(), key);
        before.insert(place_by(before, key, s.last()), s.last())
    }
}

/// In ascending order of the keys.
pub open spec fn ascends_by<T>(s: Seq<T>, key: spec_fn(T) -> int) -> bool {
    forall|i: int, j: int| 0 <= i <= j < s.len() ==> key(#[trigger] s[i]) <= key(#[trigger] s[j])
}

pub proof fn lemma_place_by<T>(s: Seq<T>, key: spec_fn(T) -> int, x: T)
    ensures
        0 <= place_by(s, key, x) <= s.len(),
    decreases s.len(),
{
    if s.len() > 0 {
        lemma_place_by(s.drop_last(), key, x);
    }
}

proof fn lemma_place_splits<T>(s: Seq<T>, key: spec_fn(T) -> int, x: T)
    requires
        ascends_by(s, key),
    ensures
        forall|i: int| 0 <= i < place_by(s, key, x) ==> key(#[trigger] s[i]) <= key(x),
        forall|i: int| place_by(s, key, x) <= i < s.len() ==> key(#[trigger] s[i]) > key(x),
    decreases s.len(),
{
    if s.len() > 0 {
        if key(s.last()) <= key(x) {
            assert forall|i: int| 0 <= i < s.len() implies key(#[trigger] s[i]) <= key(x) by {
                assert(key(s[i]) <= key(s[s.len() - 1]));
            }
        } else {
            let d = s.drop_last();
            assert forall|i: int, j: int| 0 <= i <= j < d.len() implies key(#[trigger] d[i]) <= key(
                #[trigger] d[j],
            ) by {
                assert(key(s[i]) <= key(s[j]));
            }
            lemma_place_splits(d, key, x);
            lemma_place_by(d, key, x);
            assert forall|i: int| place_by(s, key, x) <= i < s.len() implies key(#[trigger] s[i])
                > key(x) by {
                if i < d.len() {
                    assert(d[i] == s[i]);
                }
            }
            assert forall|i: int| 0 <= i < place_by(s, key, x) implies key(#[trigger] s[i]) <= key(
                x,
            ) by {
                assert(d[i] == s[i]);
            }
        }
    }
}

/// Sorting loses nothing, adds nothing, and puts the keys in order.
pub proof fn law_sorted_by<T>(s: Seq<T>, key: spec_fn(T) -> int)
    ensures
        sorted_by(s, key).to_multiset() == s.to_multiset(),
        ascends_by(sorted_by(s, key), key),
    decreases s.len(),
{
    broadcast use vstd::seq_lib::group_to_multiset_ensures;

    if s.len() > 0 {
        let before = sorted_by(s.drop_last(), key);
        let x = s.last();
        let p = place_by(before, key, x);
        lemma_place_by(before, key, x);
        vstd::seq_lib::to_multiset_insert(before, p, x);
        law_sorted_by(s.drop_last(), key);
        lemma_place_splits(before, key, x);
        let after = before.insert(p, x);
        assert(s =~= s.drop_last().push(x));
        assert forall|i: int, j: int| 0 <= i <= j < after.len() implies key(#[trigger] after[i])
            <= key(#[trigger] after[j]) by {
            let oi = if i < p {
                i
            } else {
                i - 1
            };
            let oj = if j < p {
                j
            } else {
                j - 1
            };
            if i == p && j == p {
            } else if i == p {
                assert(after[j] == before[j - 1]);
            } else if j == p {
                assert(after[i] == before[i]);
            } else {
                assert(after[i] == before[oi]);
                assert(after[j] == before[oj]);
            }
        }
    } else {
        assert(s =~= Seq::empty());
    }
}

/// Sorting keeps items with the same key in their order.
pub proof fn law_sorted_by_is_stable<T>(s: Seq<T>, key: spec_fn(T) -> int, k: int)
    ensures
        sorted_by(s, key).filter(|x: T| key(x) == k) == s.filter(|x: T| key(x) == k),
    decreases s.len(),
{
    let same = |x: T| key(x) == k;
    reveal(Seq::filter);
    if s.len() > 0 {
        let x = s.last();
        let before = sorted_by(s.drop_last(), key);
        let p = place_by(before, key, x);
        law_sorted_by_is_stable(s.drop_last(), key, k);
        law_sorted_by(s.drop_last(), key);
        lemma_place_by(before, key, x);
        lemma_place_splits(before, key, x);
        let low = before.take(p);
        let high = before.skip(p);
        assert(before =~= low + high);
        assert(sorted_by(s, key) =~= low + seq![x] + high);
        Seq::filter_distributes_over_add(low, high, same);
        Seq::filter_distributes_over_add(low + seq![x], high, same);
        Seq::filter_distributes_over_add(low, seq![x], same);
        assert(seq![x].drop_last() =~= Seq::<T>::empty());
        assert(Seq::<T>::empty().filter(same) =~= Seq::<T>::empty());
        if key(x) == k {
            assert forall|i: int| 0 <= i < high.len() implies !same(#[trigger] high[i]) by {
                assert(high[i] == before[p + i]);
            }
            lemma_filter_none(high, same);
            assert(seq![x].filter(same) =~= seq![x]);
            assert(low.filter(same) + seq![x] + high.filter(same) =~= (low.filter(same)
                + high.filter(same)).push(x));
        } else {
            assert(seq![x].filter(same) =~= Seq::<T>::empty());
            assert(low.filter(same) + Seq::<T>::empty() + high.filter(same) =~= low.filter(same)
                + high.filter(same));
        }
    }
}

proof fn lemma_filter_none<T>(s: Seq<T>, p: spec_fn(T) -> bool)
    requires
        forall|i: int| 0 <= i < s.len() ==> !p(#[trigger] s[i]),
    ensures
        s.filter(p) == Seq::<T>::empty(),
    decreases s.len(),
{
    reveal(Seq::filter);
    if s.len() > 0 {
        assert(!p(s[s.len() - 1]));
        let rest = s.drop_last();
        assert forall|i: int| 0 <= i < rest.len() implies !p(#[trigger] rest[i]) by {
            assert(rest[i] == s[i]);
        }
        lemma_filter_none(rest, p);
    }
}

/// A shuffle settles its places from the last to the second: the last place gets
/// the item that the first random number points at, and the rest is shuffled on
/// with that number as its state.
pub proof fn law_shuffle_settles_the_last_place<T>(s: Seq<T>, state: u64, i: int)
    requires
        0 < i < s.len(),
    ensures
        ({
            let next = xorshift(state);
            let all = shuffled_from(s, state, i);
            &&& all[i] == s[next as int % (i + 1)]
            &&& forall|k: int| i < k < s.len() ==> #[trigger] all[k] == s[k]
            &&& all == shuffled_from(
                s.update(i, s[next as int % (i + 1)]).update(next as int % (i + 1), s[i]),
                next,
                i - 1,
            )
        }),
{
    let next = xorshift(state);
    let j = next as int % (i + 1);
    lemma_pick_in_range(next as int, i);
    let t = swapped(s, i, j);
    assert(shuffled_from(s, state, i) == shuffled_from(t, next, i - 1));
    lemma_settled_place(t, next, i - 1, i);
    assert(t[i] == s[j]);
    assert forall|k: int| i < k < s.len() implies #[trigger] shuffled_from(s, state, i)[k]
        == s[k] by {
        lemma_settled_place(t, next, i - 1, k);
        assert(t[k] == s[k]);
    }
}

proof fn lemma_pick_in_range(x: int, i: int)
    requires
        0 <= i,
    ensures
        0 <= x % (i + 1) <= i,
{
    assert(0 <= x % (i + 1) <= i) by (nonlinear_arith)
        requires
            0 <= i,
    ;
}

proof fn lemma_settled_place<T>(s: Seq<T>, state: u64, i: int, k: int)
    requires
        0 <= i < k < s.len(),
    ensures
        shuffled_from(s, state, i)[k] == s[k],
    decreases i,
{
    if i > 0 {
        let next = xorshift(state);
        let j = next as int % (i + 1);
        let t = swapped(s, i, j);
        lemma_pick_in_range(next as int, i);
        lemma_settled_place(t, next, i - 1, k);
        assert(t[k] == s[k]);
        assert(shuffled_from(s, state, i) == shuffled_from(t, next, i - 1));
    }
}

/// The random states are made by exclusive-or and shifts alone: states that
/// differ lead to states that differ in the same way.
pub proof fn law_random_states_mix_linearly(a: u64, b: u64)
    ensures
        xorshift(a ^ b) == xorshift(a) ^ xorshift(b),
        xorshift(a) == 0 ==> a == 0,
{
    let c = a ^ b;
    assert({
        let x = (a ^ b) ^ ((a ^ b) << 13u64);
        let y = x ^ (x >> 7u64);
        let x1 = a ^ (a << 13u64);
        let y1 = x1 ^ (x1 >> 7u64);
        let x2 = b ^ (b << 13u64);
        let y2 = x2 ^ (x2 >> 7u64);
        (y ^ (y << 17u64)) == ((y1 ^ (y1 << 17u64)) ^ (y2 ^ (y2 << 17u64)))
    }) by (bit_vector);
    assert({
        let x1 = a ^ (a << 13u64);
        let y1 = x1 ^ (x1 >> 7u64);
        (y1 ^ (y1 << 17u64)) == 0 ==> a == 0
    }) by (bit_vector);
}

} // verus!
