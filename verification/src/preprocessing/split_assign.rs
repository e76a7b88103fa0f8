//! Class-balanced assignment of macro-tiles to the three subsets.
//!
//! Tiles are placed greedily, each in the subset where it costs least; a
//! corrective pass then moves tiles from over-full subsets to under-full ones.
//! What a placement costs is a question of floating-point arithmetic and is
//! answered by the caller; everything that follows from the answers is here.

use vstd::prelude::*;

use crate::counting::sum_of;
use crate::ieee::INFINITY;
use crate::preprocessing::dataset_split::TileKey;

verus! {

/// A macro-tile with its point counts per class.
#[derive(Debug)]
pub struct TileInfo {
    pub key: TileKey,
    pub counts: Vec<u64>,
    pub total: u64,
}

/// The sum of all elements.
pub open spec fn sum(s: Seq<u64>) -> int
    decreases s.len(),
{
    if s.len() == 0 {
        0
    } else {
        sum(s.drop_last()) + s.last()
    }
}

/// Every tile counts `n_classes` classes, and its total is their sum.
pub open spec fn tiles_ok(tiles: Seq<TileInfo>, n_classes: int) -> bool {
    forall|i: int|
        0 <= i < tiles.len() ==> (#[trigger] tiles[i]).counts@.len() == n_classes && tiles[i].total
            == sum(tiles[i].counts@)
}

/// Every entry of `list` is the position of a tile.
pub open spec fn positions_ok(list: Seq<usize>, n: int) -> bool {
    forall|k: int| 0 <= k < list.len() ==> (#[trigger] list[k]) < n
}

/// The points of the listed tiles.
pub open spec fn total_of(tiles: Seq<TileInfo>, list: Seq<usize>) -> int
    decreases list.len(),
{
    if list.len() == 0 {
        0
    } else {
        total_of(tiles, list.drop_last()) + tiles[list.last() as int].total
    }
}

/// The points of class `c` in the listed tiles.
pub open spec fn count_of(tiles: Seq<TileInfo>, list: Seq<usize>, c: int) -> int
    decreases list.len(),
{
    if list.len() == 0 {
        0
    } else {
        count_of(tiles, list.drop_last(), c) + tiles[list.last() as int].counts@[c]
    }
}

/// The per-class points of the listed tiles.
pub open spec fn counts_of(tiles: Seq<TileInfo>, list: Seq<usize>, n_classes: int) -> Seq<u64> {
    Seq::new(n_classes as nat, |c: int| count_of(tiles, list, c) as u64)
}

pub open spec fn lists(v: Seq<Vec<usize>>) -> Seq<Seq<usize>> {
    v.map_values(|l: Vec<usize>| l@)
}

/// The tiles assigned to train (0), val (1) and test (2), with the running
/// point totals and per-class counts of each.
pub struct SplitState {
    pub assigned: Vec<Vec<usize>>,
    pub totals: Vec<u64>,
    pub counts: Vec<Vec<u64>>,
}

impl SplitState {
    /// The three lists of tile positions.
    pub open spec fn lists(self) -> Seq<Seq<usize>> {
        lists(self.assigned@)
    }

    /// Totals and counts are those of the assigned tiles.
    pub open spec fn consistent(self, tiles: Seq<TileInfo>, n_classes: int) -> bool {
        &&& self.assigned@.len() == 3
        &&& self.totals@.len() == 3
        &&& self.counts@.len() == 3
        &&& forall|s: int|
            0 <= s < 3 ==> {
                &&& positions_ok(#[trigger] self.lists()[s], tiles.len() as int)
                &&& self.totals@[s] == total_of(tiles, self.lists()[s])
                &&& self.counts@[s]@.len() == n_classes
                &&& forall|c: int|
                    0 <= c < n_classes ==> #[trigger] self.counts@[s]@[c] == count_of(
                        tiles,
                        self.lists()[s],
                        c,
                    )
            }
    }
}

/// The number of listed tiles over the three subsets.
pub open spec fn tile_number(l: Seq<Seq<usize>>) -> nat {
    l[0].len() + l[1].len() + l[2].len()
}

/// The points of the listed tiles over the three subsets.
pub open spec fn grand_total(tiles: Seq<TileInfo>, l: Seq<Seq<usize>>) -> int {
    total_of(tiles, l[0]) + total_of(tiles, l[1]) + total_of(tiles, l[2])
}

/// All listed tiles, over the three subsets.
pub open spec fn all_listed(l: Seq<Seq<usize>>) -> vstd::multiset::Multiset<usize> {
    l[0].to_multiset().add(l[1].to_multiset()).add(l[2].to_multiset())
}

// ── Sums over lists ─────────────────────────────────────────────────────────

pub proof fn lemma_sum_nonneg(s: Seq<u64>)
    ensures
        sum(s) >= 0,
        forall|c: int| 0 <= c < s.len() ==> #[trigger] s[c] <= sum(s),
    decreases s.len(),
{
    if s.len() > 0 {
        lemma_sum_nonneg(s.drop_last());
        assert forall|c: int| 0 <= c < s.len() implies #[trigger] s[c] <= sum(s) by {
            if c < s.len() - 1 {
                assert(s.drop_last()[c] == s[c]);
            }
        }
    }
}

pub proof fn lemma_total_bounds(tiles: Seq<TileInfo>, list: Seq<usize>, c: int, n_classes: int)
    requires
        tiles_ok(tiles, n_classes),
        positions_ok(list, tiles.len() as int),
        0 <= c < n_classes,
    ensures
        0 <= count_of(tiles, list, c) <= total_of(tiles, list),
    decreases list.len(),
{
    if list.len() > 0 {
        let d = list.drop_last();
        assert(positions_ok(d, tiles.len() as int)) by {
            assert forall|k: int| 0 <= k < d.len() implies (#[trigger] d[k]) < tiles.len() by {
                assert(list[k] == d[k]);
            }
        }
        lemma_total_bounds(tiles, d, c, n_classes);
        assert(list[list.len() - 1] < tiles.len());
        let t = tiles[list.last() as int];
        lemma_sum_nonneg(t.counts@);
        assert(t.counts@[c] <= sum(t.counts@));
    }
}

pub proof fn lemma_total_nonneg(tiles: Seq<TileInfo>, list: Seq<usize>)
    ensures
        total_of(tiles, list) >= 0,
    decreases list.len(),
{
    if list.len() > 0 {
        lemma_total_nonneg(tiles, list.drop_last());
    }
}

proof fn lemma_push(tiles: Seq<TileInfo>, list: Seq<usize>, x: usize)
    ensures
        total_of(tiles, list.push(x)) == total_of(tiles, list) + tiles[x as int].total,
        forall|c: int| #[trigger]
            count_of(tiles, list.push(x), c) == count_of(tiles, list, c)
                + tiles[x as int].counts@[c],
{
    assert(list.push(x).drop_last() =~= list);
    assert forall|c: int| #[trigger]
        count_of(tiles, list.push(x), c) == count_of(tiles, list, c) + tiles[x as int].counts@[c] by {
        assert(list.push(x).drop_last() =~= list);
    }
}

pub proof fn lemma_remove(tiles: Seq<TileInfo>, list: Seq<usize>, k: int)
    requires
        0 <= k < list.len(),
    ensures
        total_of(tiles, list.remove(k)) == total_of(tiles, list) - tiles[list[k] as int].total,
        forall|c: int| #[trigger]
            count_of(tiles, list.remove(k), c) == count_of(tiles, list, c)
                - tiles[list[k] as int].counts@[c],
    decreases list.len(),
{
    let r = list.remove(k);
    if k == list.len() - 1 {
        assert(r =~= list.drop_last());
    } else {
        lemma_remove(tiles, list.drop_last(), k);
        assert(r.drop_last() =~= list.drop_last().remove(k));
        assert(r.last() == list.last());
        assert forall|c: int| #[trigger]
            count_of(tiles, r, c) == count_of(tiles, list, c) - tiles[list[k] as int].counts@[c] by {
            assert(count_of(tiles, r, c) == count_of(tiles, r.drop_last(), c)
                + tiles[r.last() as int].counts@[c]);
            assert(count_of(tiles, list.drop_last().remove(k), c) == count_of(
                tiles,
                list.drop_last(),
                c,
            ) - tiles[list[k] as int].counts@[c]);
        }
    }
}

// ── Greedy placement ────────────────────────────────────────────────────────

/// What it costs to leave a subset with the given total and per-class counts:
/// the bit pattern of a number that is not negative.
pub type PlacementCost = spec_fn(int, u64, Seq<u64>) -> u64;

/// `cost` always answers what `model` says.
pub open spec fn computes<F: Fn(usize, u64, &Vec<u64>) -> u64>(
    cost: F,
    model: PlacementCost,
) -> bool {
    forall|s: usize, total: u64, counts: &Vec<u64>, r: u64| #[trigger]
        call_ensures(cost, (s, total, counts), r) ==> r == model(s as int, total, counts@)
}

/// The active subset with the smallest cost, the first of them on a tie; the
/// first subset where none is active.
pub open spec fn cheapest(active: Seq<bool>, c0: u64, c1: u64, c2: u64) -> int {
    let (b0, s0) = if active[0] && c0 < INFINITY {
        (c0, 0int)
    } else {
        (INFINITY, 0int)
    };
    let (b1, s1) = if active[1] && c1 < b0 {
        (c1, 1int)
    } else {
        (b0, s0)
    };
    if active[2] && c2 < b1 {
        2
    } else {
        s1
    }
}

/// The cost of putting tile `x` in subset `s`.
pub open spec fn placement_cost(
    model: PlacementCost,
    tiles: Seq<TileInfo>,
    n_classes: int,
    l: Seq<Seq<usize>>,
    x: usize,
    s: int,
) -> u64 {
    model(s, total_of(tiles, l[s].push(x)) as u64, counts_of(tiles, l[s].push(x), n_classes))
}

/// The subset that tile `x` joins.
pub open spec fn choice(
    model: PlacementCost,
    tiles: Seq<TileInfo>,
    n_classes: int,
    active: Seq<bool>,
    l: Seq<Seq<usize>>,
    x: usize,
) -> int {
    cheapest(
        active,
        placement_cost(model, tiles, n_classes, l, x, 0),
        placement_cost(model, tiles, n_classes, l, x, 1),
        placement_cost(model, tiles, n_classes, l, x, 2),
    )
}

/// The lists after the tiles of `order` were placed one after the other.
pub open spec fn greedy(
    model: PlacementCost,
    tiles: Seq<TileInfo>,
    n_classes: int,
    active: Seq<bool>,
    order: Seq<usize>,
) -> Seq<Seq<usize>>
    decreases order.len(),
{
    if order.len() == 0 {
        seq![Seq::empty(), Seq::empty(), Seq::empty()]
    } else {
        let l = greedy(model, tiles, n_classes, active, order.drop_last());
        let x = order.last();
        let s = choice(model, tiles, n_classes, active, l, x);
        l.update(s, l[s].push(x))
    }
}

fn sum_into(counts: &Vec<u64>, more: &Vec<u64>) -> (r: Vec<u64>)
    requires
        counts@.len() == more@.len(),
        forall|c: int| 0 <= c < counts@.len() ==> (#[trigger] counts@[c]) + more@[c] <= u64::MAX,
    ensures
        r@.len() == counts@.len(),
        forall|c: int| 0 <= c < r@.len() ==> (#[trigger] r@[c]) == counts@[c] + more@[c],
{
    let mut out: Vec<u64> = Vec::new();
    let mut c: usize = 0;
    while c < counts.len()
        invariant
            c <= counts@.len(),
            counts@.len() == more@.len(),
            out@.len() == c,
            forall|k: int|
                0 <= k < counts@.len() ==> (#[trigger] counts@[k]) + more@[k] <= u64::MAX,
            forall|k: int| 0 <= k < c ==> (#[trigger] out@[k]) == counts@[k] + more@[k],
        decreases counts@.len() - c,
    {
        assert(counts@[c as int] + more@[c as int] <= u64::MAX);
        out.push(counts[c] + more[c]);
        c = c + 1;
    }
    out
}

fn take_from(counts: &Vec<u64>, less: &Vec<u64>) -> (r: Vec<u64>)
    requires
        counts@.len() == less@.len(),
        forall|c: int| 0 <= c < counts@.len() ==> (#[trigger] counts@[c]) >= less@[c],
    ensures
        r@.len() == counts@.len(),
        forall|c: int| 0 <= c < r@.len() ==> (#[trigger] r@[c]) == counts@[c] - less@[c],
{
    let mut out: Vec<u64> = Vec::new();
    let mut c: usize = 0;
    while c < counts.len()
        invariant
            c <= counts@.len(),
            counts@.len() == less@.len(),
            out@.len() == c,
            forall|k: int| 0 <= k < counts@.len() ==> (#[trigger] counts@[k]) >= less@[k],
            forall|k: int| 0 <= k < c ==> (#[trigger] out@[k]) == counts@[k] - less@[k],
        decreases counts@.len() - c,
    {
        assert(counts@[c as int] >= less@[c as int]);
        out.push(counts[c] - less[c]);
        c = c + 1;
    }
    out
}

/// Total and counts of subset `s` with tile `x` added.
fn with_tile(state: &SplitState, tiles: &Vec<TileInfo>, s: usize, x: usize, n_classes: usize) -> (r: (
    u64,
    Vec<u64>,
))
    requires
        state.consistent(tiles@, n_classes as int),
        tiles_ok(tiles@, n_classes as int),
        s < 3,
        x < tiles@.len(),
        total_of(tiles@, state.lists()[s as int]) + tiles@[x as int].total <= u64::MAX,
    ensures
        r.0 == total_of(tiles@, state.lists()[s as int].push(x)),
        r.1@ == counts_of(tiles@, state.lists()[s as int].push(x), n_classes as int),
        r.1@.len() == n_classes,
        forall|c: int|
            0 <= c < n_classes ==> (#[trigger] r.1@[c]) == count_of(
                tiles@,
                state.lists()[s as int].push(x),
                c,
            ),
{
    let ghost list = state.lists()[s as int];
    proof {
        lemma_push(tiles@, list, x);
        lemma_sum_nonneg(tiles@[x as int].counts@);
        assert forall|c: int| 0 <= c < n_classes implies (#[trigger] state.counts@[s as int]@[c])
            + tiles@[x as int].counts@[c] <= u64::MAX by {
            lemma_total_bounds(tiles@, list, c, n_classes as int);
            assert(tiles@[x as int].counts@[c] <= sum(tiles@[x as int].counts@));
        }
    }
    let total: u64 = state.totals[s] + tiles[x].total;
    let counts = sum_into(&state.counts[s], &tiles[x].counts);
    proof {
        assert forall|c: int| 0 <= c < n_classes implies (#[trigger] counts@[c]) == count_of(
            tiles@,
            list.push(x),
            c,
        ) by {
            assert(state.counts@[s as int]@[c] == count_of(tiles@, list, c));
        }
        assert(counts@ =~= counts_of(tiles@, list.push(x), n_classes as int));
    }
    (total, counts)
}

/// Puts tile `x` in subset `s`, given what [`with_tile`] computed.
fn place(
    state: &mut SplitState,
    tiles: &Vec<TileInfo>,
    s: usize,
    x: usize,
    n_classes: usize,
    after: (u64, Vec<u64>),
)
    requires
        old(state).consistent(tiles@, n_classes as int),
        s < 3,
        x < tiles@.len(),
        after.0 == total_of(tiles@, old(state).lists()[s as int].push(x)),
        after.1@.len() == n_classes,
        forall|c: int|
            0 <= c < n_classes ==> (#[trigger] after.1@[c]) == count_of(
                tiles@,
                old(state).lists()[s as int].push(x),
                c,
            ),
    ensures
        final(state).consistent(tiles@, n_classes as int),
        final(state).lists() == old(state).lists().update(
            s as int,
            old(state).lists()[s as int].push(x),
        ),
{
    let ghost before = state.lists();
    state.assigned[s].push(x);
    state.totals.set(s, after.0);
    state.counts.set(s, after.1);
    proof {
        assert(state.lists() =~= before.update(s as int, before[s as int].push(x)));
        assert forall|k: int| 0 <= k < 3 implies positions_ok(
            #[trigger] state.lists()[k],
            tiles@.len() as int,
        ) by {
            if k == s {
                let l = before[k].push(x);
                assert forall|i: int| 0 <= i < l.len() implies (#[trigger] l[i]) < tiles@.len() by {
                    if i < before[k].len() {
                        assert(before[k][i] < tiles@.len());
                    }
                }
            }
        }
    }
}

proof fn lemma_all_listed_push(l: Seq<Seq<usize>>, s: int, x: usize)
    requires
        l.len() == 3,
        0 <= s < 3,
    ensures
        all_listed(l.update(s, l[s].push(x))) == all_listed(l).insert(x),
{
    broadcast use vstd::seq_lib::group_to_multiset_ensures;

    assert(all_listed(l.update(s, l[s].push(x))) =~= all_listed(l).insert(x));
}

/// Places the tiles of `order`, one after the other, each where `cost` is
/// smallest.
pub fn greedy_assign<F: Fn(usize, u64, &Vec<u64>) -> u64>(
    tiles: &Vec<TileInfo>,
    n_classes: usize,
    active: &[bool; 3],
    order: &Vec<usize>,
    cost: F,
) -> (state: SplitState)
    requires
        tiles_ok(tiles@, n_classes as int),
        positions_ok(order@, tiles@.len() as int),
        total_of(tiles@, order@) <= u64::MAX,
        forall|s: usize, total: u64, counts: &Vec<u64>| #[trigger]
            call_requires(cost, (s, total, counts)),
    ensures
        state.consistent(tiles@, n_classes as int),
        all_listed(state.lists()) == order@.to_multiset(),
        grand_total(tiles@, state.lists()) == total_of(tiles@, order@),
        tile_number(state.lists()) == order@.len(),
        forall|s: int| 1 <= s < 3 && !active@[s] ==> (#[trigger] state.lists()[s]).len() == 0,
        forall|model: PlacementCost| #[trigger]
            computes(cost, model) ==> state.lists() == greedy(
                model,
                tiles@,
                n_classes as int,
                active@,
                order@,
            ),
{
    broadcast use vstd::seq_lib::group_to_multiset_ensures;

    let mut zeros: Vec<u64> = Vec::new();
    let mut k: usize = 0;
    while k < n_classes
        invariant
            k <= n_classes,
            zeros@ == Seq::new(k as nat, |c: int| 0u64),
        decreases n_classes - k,
    {
        zeros.push(0);
        assert(zeros@ =~= Seq::new((k + 1) as nat, |c: int| 0u64));
        k = k + 1;
    }
    let mut state = SplitState {
        assigned: vec![Vec::new(), Vec::new(), Vec::new()],
        totals: vec![0, 0, 0],
        counts: vec![zeros.clone(), zeros.clone(), zeros],
    };
    proof {
        assert(state.lists() =~= seq![Seq::empty(), Seq::empty(), Seq::empty()]);
        assert(order@.take(0) =~= Seq::empty());
        assert(state.consistent(tiles@, n_classes as int));
        assert(all_listed(state.lists()) =~= order@.take(0).to_multiset());
    }
    let mut i: usize = 0;
    while i < order.len()
        invariant
            i <= order@.len(),
            tiles_ok(tiles@, n_classes as int),
            positions_ok(order@, tiles@.len() as int),
            total_of(tiles@, order@) <= u64::MAX,
            forall|s: usize, total: u64, counts: &Vec<u64>| #[trigger]
                call_requires(cost, (s, total, counts)),
            state.consistent(tiles@, n_classes as int),
            all_listed(state.lists()) == order@.take(i as int).to_multiset(),
            grand_total(tiles@, state.lists()) == total_of(tiles@, order@.take(i as int)),
            tile_number(state.lists()) == i,
            forall|s: int| 1 <= s < 3 && !active@[s] ==> (#[trigger] state.lists()[s]).len() == 0,
            forall|model: PlacementCost| #[trigger]
                computes(cost, model) ==> state.lists() == greedy(
                    model,
                    tiles@,
                    n_classes as int,
                    active@,
                    order@.take(i as int),
                ),
        decreases order@.len() - i,
    {
        let x: usize = order[i];
        let ghost l = state.lists();
        let ghost prefix = order@.take(i + 1);
        proof {
            assert(prefix.drop_last() =~= order@.take(i as int));
            assert(prefix.last() == x);
            assert(prefix =~= order@.take(i as int).push(x));
            vstd::seq_lib::to_multiset_build(order@.take(i as int), x);
            lemma_prefix_total(tiles@, order@, i + 1);
            lemma_total_nonneg(tiles@, l[0]);
            lemma_total_nonneg(tiles@, l[1]);
            lemma_total_nonneg(tiles@, l[2]);
        }
        let mut best_split: usize = 0;
        let mut best_cost: u64 = INFINITY;
        let after0 = with_tile(&state, tiles, 0, x, n_classes);
        let after1 = with_tile(&state, tiles, 1, x, n_classes);
        let after2 = with_tile(&state, tiles, 2, x, n_classes);
        let c0: u64 = cost(0, after0.0, &after0.1);
        let c1: u64 = cost(1, after1.0, &after1.1);
        let c2: u64 = cost(2, after2.0, &after2.1);
        if active[0] && c0 < best_cost {
            best_cost = c0;
            best_split = 0;
        }
        if active[1] && c1 < best_cost {
            best_cost = c1;
            best_split = 1;
        }
        if active[2] && c2 < best_cost {
            best_split = 2;
        }
        assert(best_split == cheapest(active@, c0, c1, c2));
        assert forall|model: PlacementCost| #[trigger] computes(cost, model) implies best_split
            == choice(model, tiles@, n_classes as int, active@, l, x) by {
            assert(c0 == placement_cost(model, tiles@, n_classes as int, l, x, 0));
            assert(c1 == placement_cost(model, tiles@, n_classes as int, l, x, 1));
            assert(c2 == placement_cost(model, tiles@, n_classes as int, l, x, 2));
        }
        proof {
            lemma_push(tiles@, l[best_split as int], x);
            lemma_all_listed_push(l, best_split as int, x);
        }
        if best_split == 0 {
            place(&mut state, tiles, 0, x, n_classes, after0);
        } else if best_split == 1 {
            place(&mut state, tiles, 1, x, n_classes, after1);
        } else {
            place(&mut state, tiles, 2, x, n_classes, after2);
        }
        i = i + 1;
    }
    assert(order@.take(i as int) =~= order@);
    state
}

proof fn lemma_prefix_total(tiles: Seq<TileInfo>, order: Seq<usize>, i: int)
    requires
        0 <= i <= order.len(),
    ensures
        total_of(tiles, order.take(i)) <= total_of(tiles, order),
    decreases order.len() - i,
{
    if i == order.len() {
        assert(order.take(i) =~= order);
    } else {
        lemma_prefix_total(tiles, order, i + 1);
        assert(order.take(i + 1).drop_last() =~= order.take(i));
    }
}

// ── Corrective rebalancing ──────────────────────────────────────────────────

/// Tolerance, in tiles, within which a subset's size counts as close enough to
/// its target.
pub const SIZE_TOLERANCE_TILES: i64 = 1;

/// How the cost of one candidate compares with that of another, up to a small
/// tolerance.
#[derive(Debug, Clone, Copy, PartialEq, Eq, Structural)]
pub enum CostOrder {
    Cheaper,
    Tied,
    Dearer,
}

/// What a move costs, given total and counts of the donor without the tile and
/// of the recipient with it.
pub type MoveCost = spec_fn(u64, Seq<u64>, u64, Seq<u64>) -> u64;

/// How a candidate's cost compares with the best cost so far.
pub type CostRanking = spec_fn(u64, u64) -> CostOrder;

/// `cost` always answers what `model` says.
pub open spec fn computes_moves<F: Fn(u64, &Vec<u64>, u64, &Vec<u64>) -> u64>(
    cost: F,
    model: MoveCost,
) -> bool {
    forall|dt: u64, dc: &Vec<u64>, rt: u64, rc: &Vec<u64>, r: u64| #[trigger]
        call_ensures(cost, (dt, dc, rt, rc), r) ==> r == model(dt, dc@, rt, rc@)
}

/// `ranking` always answers what `model` says.
pub open spec fn ranks<G: Fn(u64, u64) -> CostOrder>(ranking: G, model: CostRanking) -> bool {
    forall|a: u64, b: u64, r: CostOrder| #[trigger]
        call_ensures(ranking, (a, b), r) ==> r == model(a, b)
}

/// By how many tiles subset `s` is over its target.
pub open spec fn deviation(l: Seq<Seq<usize>>, targets: Seq<i64>, s: int) -> int {
    l[s].len() as int - targets[s]
}

pub open spec fn donor_among(
    active: Seq<bool>,
    targets: Seq<i64>,
    l: Seq<Seq<usize>>,
    best: Option<int>,
    s: int,
) -> Option<int> {
    if active[s] && l[s].len() > 0 && (best is None || deviation(l, targets, s) >= deviation(
        l,
        targets,
        best->0,
    )) {
        Some(s)
    } else {
        best
    }
}

/// The active, non-empty subset furthest over its target, the last of them on
/// a tie.
pub open spec fn donor(active: Seq<bool>, targets: Seq<i64>, l: Seq<Seq<usize>>) -> Option<int> {
    let d0 = donor_among(active, targets, l, None, 0);
    let d1 = donor_among(active, targets, l, d0, 1);
    donor_among(active, targets, l, d1, 2)
}

pub open spec fn recipient_among(
    active: Seq<bool>,
    targets: Seq<i64>,
    l: Seq<Seq<usize>>,
    best: Option<int>,
    s: int,
) -> Option<int> {
    if active[s] && (best is None || deviation(l, targets, s) < deviation(l, targets, best->0)) {
        Some(s)
    } else {
        best
    }
}

/// The active subset furthest under its target, the first of them on a tie.
pub open spec fn recipient(active: Seq<bool>, targets: Seq<i64>, l: Seq<Seq<usize>>) -> Option<
    int,
> {
    let r0 = recipient_among(active, targets, l, None, 0);
    let r1 = recipient_among(active, targets, l, r0, 1);
    recipient_among(active, targets, l, r1, 2)
}

/// The pair of subsets between which a tile should move, if any.
pub open spec fn next_move(active: Seq<bool>, targets: Seq<i64>, l: Seq<Seq<usize>>) -> Option<
    (int, int),
> {
    match (donor(active, targets, l), recipient(active, targets, l)) {
        (Some(d), Some(r)) => if d == r || (deviation(l, targets, d) <= SIZE_TOLERANCE_TILES
            && deviation(l, targets, r) >= -SIZE_TOLERANCE_TILES) {
            None
        } else {
            Some((d, r))
        },
        _ => None,
    }
}

/// The cost of moving the donor's `i`-th tile to the recipient.
pub open spec fn move_cost(
    model: MoveCost,
    tiles: Seq<TileInfo>,
    n_classes: int,
    from: Seq<usize>,
    to: Seq<usize>,
    i: int,
) -> u64 {
    model(
        total_of(tiles, from.remove(i)) as u64,
        counts_of(tiles, from.remove(i), n_classes),
        total_of(tiles, to.push(from[i])) as u64,
        counts_of(tiles, to.push(from[i]), n_classes),
    )
}

/// The best of the donor's first `k` tiles to move: cheapest, and on a tie the
/// one with fewer points. Gives its place, its cost and its points.
pub open spec fn best_move(
    model: MoveCost,
    ranking: CostRanking,
    tiles: Seq<TileInfo>,
    n_classes: int,
    from: Seq<usize>,
    to: Seq<usize>,
    k: int,
) -> Option<(int, u64, u64)>
    decreases k,
{
    if k <= 0 {
        None
    } else {
        let before = best_move(model, ranking, tiles, n_classes, from, to, k - 1);
        let cost = move_cost(model, tiles, n_classes, from, to, k - 1);
        let points = tiles[from[k - 1] as int].total;
        let better = match before {
            None => true,
            Some((_, best_cost, best_points)) => ranking(cost, best_cost) == CostOrder::Cheaper || (
            ranking(cost, best_cost) == CostOrder::Tied && points < best_points),
        };
        if better {
            Some((k - 1, cost, points))
        } else {
            before
        }
    }
}

/// The lists after the `i`-th tile of subset `d` moved to the end of subset
/// `r`.
pub open spec fn moved(l: Seq<Seq<usize>>, d: int, r: int, i: int) -> Seq<Seq<usize>> {
    l.update(d, l[d].remove(i)).update(r, l[r].push(l[d][i]))
}

/// The lists after at most `moves` corrective moves.
pub open spec fn rebalanced(
    model: MoveCost,
    ranking: CostRanking,
    tiles: Seq<TileInfo>,
    n_classes: int,
    active: Seq<bool>,
    targets: Seq<i64>,
    l: Seq<Seq<usize>>,
    moves: int,
) -> Seq<Seq<usize>>
    decreases moves,
{
    if moves <= 0 {
        l
    } else {
        match next_move(active, targets, l) {
            None => l,
            Some((d, r)) => {
                let best = best_move(
                    model,
                    ranking,
                    tiles,
                    n_classes,
                    l[d],
                    l[r],
                    l[d].len() as int,
                );
                let i = best.unwrap().0;
                rebalanced(
                    model,
                    ranking,
                    tiles,
                    n_classes,
                    active,
                    targets,
                    moved(l, d, r, i),
                    moves - 1,
                )
            },
        }
    }
}

/// The sum of the active subsets' deviations.
pub open spec fn drift(active: Seq<bool>, targets: Seq<i64>, l: Seq<Seq<usize>>) -> int {
    (if active[0] {
        deviation(l, targets, 0)
    } else {
        0
    }) + (if active[1] {
        deviation(l, targets, 1)
    } else {
        0
    }) + (if active[2] {
        deviation(l, targets, 2)
    } else {
        0
    })
}

/// The targets of the active subsets are not negative and add up to their
/// number of tiles, give or take one.
pub open spec fn reachable(active: Seq<bool>, targets: Seq<i64>, l: Seq<Seq<usize>>) -> bool {
    &&& -1 <= drift(active, targets, l) <= 1
    &&& forall|s: int| 0 <= s < 3 && active[s] ==> #[trigger] targets[s] >= 0
}

/// Every active subset is within tolerance of its target.
pub open spec fn on_target(active: Seq<bool>, targets: Seq<i64>, l: Seq<Seq<usize>>) -> bool {
    forall|s: int|
        0 <= s < 3 && #[trigger] active[s] ==> -SIZE_TOLERANCE_TILES <= deviation(l, targets, s)
            <= SIZE_TOLERANCE_TILES
}

spec fn off_by(active: Seq<bool>, targets: Seq<i64>, l: Seq<Seq<usize>>, s: int) -> int {
    if !active[s] {
        0
    } else if deviation(l, targets, s) < 0 {
        -deviation(l, targets, s)
    } else {
        deviation(l, targets, s)
    }
}

spec fn imbalance(active: Seq<bool>, targets: Seq<i64>, l: Seq<Seq<usize>>) -> int {
    off_by(active, targets, l, 0) + off_by(active, targets, l, 1) + off_by(active, targets, l, 2)
}

proof fn lemma_no_move_left(active: Seq<bool>, targets: Seq<i64>, l: Seq<Seq<usize>>)
    requires
        l.len() == 3,
        active.len() == 3,
        targets.len() == 3,
        reachable(active, targets, l),
        next_move(active, targets, l) is None,
    ensures
        on_target(active, targets, l),
{
    assert(active[0] ==> targets[0] >= 0);
    assert(active[1] ==> targets[1] >= 0);
    assert(active[2] ==> targets[2] >= 0);
    assert forall|s: int| 0 <= s < 3 && #[trigger] active[s] implies -SIZE_TOLERANCE_TILES
        <= deviation(l, targets, s) <= SIZE_TOLERANCE_TILES by {
        assert(s == 0 || s == 1 || s == 2);
    }
}

proof fn lemma_move_helps(
    active: Seq<bool>,
    targets: Seq<i64>,
    l: Seq<Seq<usize>>,
    d: int,
    r: int,
    i: int,
)
    requires
        l.len() == 3,
        active.len() == 3,
        targets.len() == 3,
        next_move(active, targets, l) == Some((d, r)),
        0 <= i < l[d].len(),
    ensures
        drift(active, targets, moved(l, d, r, i)) == drift(active, targets, l),
        tile_number(moved(l, d, r, i)) == tile_number(l),
        reachable(active, targets, l) ==> imbalance(active, targets, moved(l, d, r, i))
            == imbalance(active, targets, l) - 2,
        forall|s: int| 0 <= s < 3 && !active[s] ==> #[trigger] moved(l, d, r, i)[s] == l[s],
{
    let m = moved(l, d, r, i);
    assert(m[d] == l[d].remove(i));
    assert(m[r] == l[r].push(l[d][i]));
    assert(active[0] ==> reachable(active, targets, l) ==> targets[0] >= 0);
    assert(active[1] ==> reachable(active, targets, l) ==> targets[1] >= 0);
    assert(active[2] ==> reachable(active, targets, l) ==> targets[2] >= 0);
    assert(d == 0 || d == 1 || d == 2);
    assert(r == 0 || r == 1 || r == 2);
}

proof fn lemma_imbalance_bound(active: Seq<bool>, targets: Seq<i64>, l: Seq<Seq<usize>>)
    requires
        l.len() == 3,
        active.len() == 3,
        targets.len() == 3,
        reachable(active, targets, l),
    ensures
        imbalance(active, targets, l) <= 2 * tile_number(l) + 1,
{
    assert(active[0] ==> targets[0] >= 0);
    assert(active[1] ==> targets[1] >= 0);
    assert(active[2] ==> targets[2] >= 0);
}

fn deviation_of(state: &SplitState, targets: &[i64; 3], s: usize) -> (r: i128)
    requires
        state.assigned@.len() == 3,
        s < 3,
    ensures
        r == deviation(state.lists(), targets@, s as int),
{
    assert(state.lists()[s as int] == state.assigned@[s as int]@);
    state.assigned[s].len() as i128 - targets[s] as i128
}

fn find_donor(state: &SplitState, active: &[bool; 3], targets: &[i64; 3]) -> (r: Option<usize>)
    requires
        state.assigned@.len() == 3,
    ensures
        match r {
            Some(d) => donor(active@, targets@, state.lists()) == Some(d as int),
            None => donor(active@, targets@, state.lists()) is None,
        },
{
    let mut best: Option<usize> = None;
    let mut best_deviation: i128 = 0;
    if active[0] && state.assigned[0].len() > 0 {
        best = Some(0);
        best_deviation = deviation_of(state, targets, 0);
    }
    if active[1] && state.assigned[1].len() > 0 {
        let dev: i128 = deviation_of(state, targets, 1);
        if best.is_none() || dev >= best_deviation {
            best = Some(1);
            best_deviation = dev;
        }
    }
    if active[2] && state.assigned[2].len() > 0 {
        let dev: i128 = deviation_of(state, targets, 2);
        if best.is_none() || dev >= best_deviation {
            best = Some(2);
        }
    }
    assert(forall|s: int| 0 <= s < 3 ==> #[trigger] state.lists()[s] == state.assigned@[s]@);
    best
}

fn find_recipient(state: &SplitState, active: &[bool; 3], targets: &[i64; 3]) -> (r: Option<usize>)
    requires
        state.assigned@.len() == 3,
    ensures
        match r {
            Some(d) => recipient(active@, targets@, state.lists()) == Some(d as int),
            None => recipient(active@, targets@, state.lists()) is None,
        },
{
    let mut best: Option<usize> = None;
    let mut best_deviation: i128 = 0;
    if active[0] {
        best = Some(0);
        best_deviation = deviation_of(state, targets, 0);
    }
    if active[1] {
        let dev: i128 = deviation_of(state, targets, 1);
        if best.is_none() || dev < best_deviation {
            best = Some(1);
            best_deviation = dev;
        }
    }
    if active[2] {
        let dev: i128 = deviation_of(state, targets, 2);
        if best.is_none() || dev < best_deviation {
            best = Some(2);
        }
    }
    best
}

fn find_next_move(state: &SplitState, active: &[bool; 3], targets: &[i64; 3]) -> (r: Option<
    (usize, usize),
>)
    requires
        state.assigned@.len() == 3,
    ensures
        match r {
            Some((d, t)) => next_move(active@, targets@, state.lists()) == Some(
                (d as int, t as int),
            ),
            None => next_move(active@, targets@, state.lists()) is None,
        },
{
    match (find_donor(state, active, targets), find_recipient(state, active, targets)) {
        (Some(d), Some(t)) => {
            if d == t {
                return None;
            }
            if deviation_of(state, targets, d) <= SIZE_TOLERANCE_TILES as i128 && deviation_of(
                state,
                targets,
                t,
            ) >= -(SIZE_TOLERANCE_TILES as i128) {
                return None;
            }
            Some((d, t))
        },
        _ => None,
    }
}

/// Total and counts of subset `d` without its `i`-th tile.
fn without_tile(
    state: &SplitState,
    tiles: &Vec<TileInfo>,
    d: usize,
    i: usize,
    n_classes: usize,
) -> (r: (u64, Vec<u64>))
    requires
        state.consistent(tiles@, n_classes as int),
        tiles_ok(tiles@, n_classes as int),
        d < 3,
        i < state.lists()[d as int].len(),
    ensures
        r.0 == total_of(tiles@, state.lists()[d as int].remove(i as int)),
        r.1@ == counts_of(tiles@, state.lists()[d as int].remove(i as int), n_classes as int),
        r.1@.len() == n_classes,
        forall|c: int|
            0 <= c < n_classes ==> (#[trigger] r.1@[c]) == count_of(
                tiles@,
                state.lists()[d as int].remove(i as int),
                c,
            ),
{
    let ghost list = state.lists()[d as int];
    let ghost rest = list.remove(i as int);
    assert(list == state.assigned@[d as int]@);
    let x: usize = state.assigned[d][i];
    proof {
        assert(positions_ok(list, tiles@.len() as int));
        assert(list[i as int] < tiles@.len());
        lemma_remove(tiles@, list, i as int);
        lemma_total_nonneg(tiles@, rest);
        assert(positions_ok(rest, tiles@.len() as int)) by {
            assert forall|k: int| 0 <= k < rest.len() implies (#[trigger] rest[k]) < tiles@.len() by {
                assert(list[k] < tiles@.len());
                if k >= i {
                    assert(list[k + 1] < tiles@.len());
                }
            }
        }
        assert forall|c: int| 0 <= c < n_classes implies (#[trigger] state.counts@[d as int]@[c])
            >= tiles@[x as int].counts@[c] by {
            lemma_total_bounds(tiles@, rest, c, n_classes as int);
            assert(count_of(tiles@, rest, c) == count_of(tiles@, list, c)
                - tiles@[x as int].counts@[c]);
        }
    }
    let total: u64 = state.totals[d] - tiles[x].total;
    let counts = take_from(&state.counts[d], &tiles[x].counts);
    proof {
        assert forall|c: int| 0 <= c < n_classes implies (#[trigger] counts@[c]) == count_of(
            tiles@,
            rest,
            c,
        ) by {
            assert(state.counts@[d as int]@[c] == count_of(tiles@, list, c));
            assert(count_of(tiles@, rest, c) == count_of(tiles@, list, c)
                - tiles@[x as int].counts@[c]);
            lemma_total_bounds(tiles@, rest, c, n_classes as int);
        }
        assert(counts@ =~= counts_of(tiles@, rest, n_classes as int));
    }
    (total, counts)
}

/// Both models answer for the two callers' functions.
pub open spec fn models_moves<
    F: Fn(u64, &Vec<u64>, u64, &Vec<u64>) -> u64,
    G: Fn(u64, u64) -> CostOrder,
>(cost: F, ranking: G, model: MoveCost, order: CostRanking) -> bool {
    computes_moves(cost, model) && ranks(ranking, order)
}

/// The donor's tile to move: cheapest, and on a tie the one with fewer points.
fn find_best_move<F: Fn(u64, &Vec<u64>, u64, &Vec<u64>) -> u64, G: Fn(u64, u64) -> CostOrder>(
    state: &SplitState,
    tiles: &Vec<TileInfo>,
    n_classes: usize,
    d: usize,
    t: usize,
    cost: &F,
    ranking: &G,
) -> (r: usize)
    requires
        state.consistent(tiles@, n_classes as int),
        tiles_ok(tiles@, n_classes as int),
        d < 3,
        t < 3,
        d != t,
        state.lists()[d as int].len() > 0,
        grand_total(tiles@, state.lists()) <= u64::MAX,
        forall|dt: u64, dc: &Vec<u64>, rt: u64, rc: &Vec<u64>| #[trigger]
            call_requires(*cost, (dt, dc, rt, rc)),
        forall|a: u64, b: u64| #[trigger] call_requires(*ranking, (a, b)),
    ensures
        r < state.lists()[d as int].len(),
        forall|model: MoveCost, order: CostRanking| #[trigger]
            models_moves(*cost, *ranking, model, order) ==> best_move(
                model,
                order,
                tiles@,
                n_classes as int,
                state.lists()[d as int],
                state.lists()[t as int],
                state.lists()[d as int].len() as int,
            ) is Some && best_move(
                model,
                order,
                tiles@,
                n_classes as int,
                state.lists()[d as int],
                state.lists()[t as int],
                state.lists()[d as int].len() as int,
            ).unwrap().0 == r,
{
    let ghost from = state.lists()[d as int];
    let ghost to = state.lists()[t as int];
    assert(from == state.assigned@[d as int]@);
    let mut best: Option<(usize, u64, u64)> = None;
    let mut i: usize = 0;
    while i < state.assigned[d].len()
        invariant
            state.consistent(tiles@, n_classes as int),
            tiles_ok(tiles@, n_classes as int),
            d < 3,
            t < 3,
            d != t,
            from == state.lists()[d as int],
            from == state.assigned@[d as int]@,
            to == state.lists()[t as int],
            i <= from.len(),
            grand_total(tiles@, state.lists()) <= u64::MAX,
            forall|dt: u64, dc: &Vec<u64>, rt: u64, rc: &Vec<u64>| #[trigger]
                call_requires(*cost, (dt, dc, rt, rc)),
            forall|a: u64, b: u64| #[trigger] call_requires(*ranking, (a, b)),
            i > 0 ==> best is Some && best.unwrap().0 < from.len(),
            i == 0 ==> best is None,
            forall|model: MoveCost, order: CostRanking| #[trigger]
                models_moves(*cost, *ranking, model, order) ==> {
                    let b = best_move(model, order, tiles@, n_classes as int, from, to, i as int);
                    match best {
                        None => b is None,
                        Some((p, c, q)) => b == Some((p as int, c, q)),
                    }
                },
        decreases from.len() - i,
    {
        let x: usize = state.assigned[d][i];
        proof {
            assert(positions_ok(from, tiles@.len() as int));
            assert(from[i as int] < tiles@.len());
            lemma_remove(tiles@, from, i as int);
            lemma_total_nonneg(tiles@, from.remove(i as int));
            lemma_total_nonneg(tiles@, state.lists()[0]);
            lemma_total_nonneg(tiles@, state.lists()[1]);
            lemma_total_nonneg(tiles@, state.lists()[2]);
        }
        let donor_after = without_tile(state, tiles, d, i, n_classes);
        let recipient_after = with_tile(state, tiles, t, x, n_classes);
        let c: u64 = cost(donor_after.0, &donor_after.1, recipient_after.0, &recipient_after.1);
        let points: u64 = tiles[x].total;
        let ghost before = best;
        assert forall|model: MoveCost, order: CostRanking| #[trigger]
            models_moves(*cost, *ranking, model, order) implies c == move_cost(
            model,
            tiles@,
            n_classes as int,
            from,
            to,
            i as int,
        ) by {}
        let better: bool = match best {
            None => true,
            Some((_, best_cost, best_points)) => {
                let o = ranking(c, best_cost);
                o == CostOrder::Cheaper || (o == CostOrder::Tied && points < best_points)
            },
        };
        if better {
            best = Some((i, c, points));
        }
        i = i + 1;
    }
    match best {
        Some((p, _, _)) => p,
        None => 0,
    }
}

/// Moves tiles from over-full to under-full subsets until every active subset
/// is within tolerance of its target, or no move is left to make. No tile is
/// lost or duplicated, and totals and counts follow the moves.
pub fn rebalance_by_size<
    F: Fn(u64, &Vec<u64>, u64, &Vec<u64>) -> u64,
    G: Fn(u64, u64) -> CostOrder,
>(
    tiles: &Vec<TileInfo>,
    n_classes: usize,
    active: &[bool; 3],
    targets: &[i64; 3],
    state: &mut SplitState,
    cost: F,
    ranking: G,
)
    requires
        old(state).consistent(tiles@, n_classes as int),
        tiles_ok(tiles@, n_classes as int),
        grand_total(tiles@, old(state).lists()) <= u64::MAX,
        tile_number(old(state).lists()) < usize::MAX,
        forall|dt: u64, dc: &Vec<u64>, rt: u64, rc: &Vec<u64>| #[trigger]
            call_requires(cost, (dt, dc, rt, rc)),
        forall|a: u64, b: u64| #[trigger] call_requires(ranking, (a, b)),
    ensures
        final(state).consistent(tiles@, n_classes as int),
        all_listed(final(state).lists()) == all_listed(old(state).lists()),
        grand_total(tiles@, final(state).lists()) == grand_total(tiles@, old(state).lists()),
        forall|s: int|
            0 <= s < 3 && !active@[s] ==> #[trigger] final(state).lists()[s] == old(
                state,
            ).lists()[s],
        reachable(active@, targets@, old(state).lists()) ==> on_target(
            active@,
            targets@,
            final(state).lists(),
        ),
        forall|model: MoveCost, order: CostRanking| #[trigger]
            models_moves(cost, ranking, model, order) ==> final(state).lists() == rebalanced(
                model,
                order,
                tiles@,
                n_classes as int,
                active@,
                targets@,
                old(state).lists(),
                tile_number(old(state).lists()) as int + 1,
            ),
{
    broadcast use vstd::seq_lib::group_to_multiset_ensures;

    let ghost l0 = state.lists();
    assert(forall|s: int| 0 <= s < 3 ==> #[trigger] l0[s] == state.assigned@[s]@);
    let n_tiles: usize = state.assigned[0].len() + state.assigned[1].len()
        + state.assigned[2].len();
    let max_iterations: usize = n_tiles + 1;
    let mut done: usize = 0;
    proof {
        if reachable(active@, targets@, l0) {
            lemma_imbalance_bound(active@, targets@, l0);
        }
    }
    while done < max_iterations
        invariant
            done <= max_iterations,
            max_iterations == tile_number(l0) + 1,
            l0 == old(state).lists(),
            l0.len() == 3,
            state.consistent(tiles@, n_classes as int),
            tiles_ok(tiles@, n_classes as int),
            grand_total(tiles@, state.lists()) == grand_total(tiles@, l0),
            grand_total(tiles@, l0) <= u64::MAX,
            tile_number(state.lists()) == tile_number(l0),
            all_listed(state.lists()) == all_listed(l0),
            forall|s: int| 0 <= s < 3 && !active@[s] ==> #[trigger] state.lists()[s] == l0[s],
            reachable(active@, targets@, l0) ==> reachable(active@, targets@, state.lists()),
            reachable(active@, targets@, l0) ==> imbalance(active@, targets@, state.lists()) + 2
                * done <= 2 * tile_number(l0) + 1,
            forall|dt: u64, dc: &Vec<u64>, rt: u64, rc: &Vec<u64>| #[trigger]
                call_requires(cost, (dt, dc, rt, rc)),
            forall|a: u64, b: u64| #[trigger] call_requires(ranking, (a, b)),
            forall|model: MoveCost, order: CostRanking| #[trigger]
                models_moves(cost, ranking, model, order) ==> rebalanced(
                    model,
                    order,
                    tiles@,
                    n_classes as int,
                    active@,
                    targets@,
                    l0,
                    max_iterations as int,
                ) == rebalanced(
                    model,
                    order,
                    tiles@,
                    n_classes as int,
                    active@,
                    targets@,
                    state.lists(),
                    max_iterations - done,
                ),
        decreases max_iterations - done,
    {
        let ghost l = state.lists();
        match find_next_move(state, active, targets) {
            None => {
                proof {
                    if reachable(active@, targets@, l0) {
                        lemma_no_move_left(active@, targets@, l);
                    }
                }
                return ;
            },
            Some((d, t)) => {
                assert(l[d as int] == state.assigned@[d as int]@);
                assert(l[t as int] == state.assigned@[t as int]@);
                let p: usize = find_best_move(state, tiles, n_classes, d, t, &cost, &ranking);
                let ghost x = l[d as int][p as int];
                proof {
                    lemma_move_helps(active@, targets@, l, d as int, t as int, p as int);
                    lemma_remove(tiles@, l[d as int], p as int);
                    lemma_push(tiles@, l[t as int], x);
                    lemma_total_nonneg(tiles@, l[0]);
                    lemma_total_nonneg(tiles@, l[1]);
                    lemma_total_nonneg(tiles@, l[2]);
                    lemma_total_nonneg(tiles@, l[d as int].remove(p as int));
                }
                shift_tile(state, tiles, n_classes, d, t, p);
            },
        }
        done = done + 1;
    }
    proof {
        if reachable(active@, targets@, l0) {
            assert(imbalance(active@, targets@, state.lists()) >= 0);
            assert(false);
        }
    }
}

/// Moves the `p`-th tile of subset `d` to the end of subset `t`.
fn shift_tile(
    state: &mut SplitState,
    tiles: &Vec<TileInfo>,
    n_classes: usize,
    d: usize,
    t: usize,
    p: usize,
)
    requires
        old(state).consistent(tiles@, n_classes as int),
        tiles_ok(tiles@, n_classes as int),
        d < 3,
        t < 3,
        d != t,
        p < old(state).lists()[d as int].len(),
        grand_total(tiles@, old(state).lists()) <= u64::MAX,
    ensures
        final(state).consistent(tiles@, n_classes as int),
        final(state).lists() == moved(old(state).lists(), d as int, t as int, p as int),
        all_listed(final(state).lists()) == all_listed(old(state).lists()),
        grand_total(tiles@, final(state).lists()) == grand_total(tiles@, old(state).lists()),
{
    broadcast use vstd::seq_lib::group_to_multiset_ensures;

    let ghost l = state.lists();
    let ghost x = l[d as int][p as int];
    let ghost rest = l[d as int].remove(p as int);
    assert(l[d as int] == state.assigned@[d as int]@);
    assert(l[t as int] == state.assigned@[t as int]@);
    proof {
        assert(positions_ok(l[d as int], tiles@.len() as int));
        assert(x < tiles@.len());
        lemma_remove(tiles@, l[d as int], p as int);
        lemma_push(tiles@, l[t as int], x);
        lemma_total_nonneg(tiles@, l[0]);
        lemma_total_nonneg(tiles@, l[1]);
        lemma_total_nonneg(tiles@, l[2]);
        lemma_total_nonneg(tiles@, rest);
    }
    let donor_after = without_tile(state, tiles, d, p, n_classes);
    let key: usize = state.assigned[d][p];
    let recipient_after = with_tile(state, tiles, t, key, n_classes);
    state.assigned[d].remove(p);
    state.totals.set(d, donor_after.0);
    state.counts.set(d, donor_after.1);
    proof {
        assert(state.lists() =~= l.update(d as int, rest));
        assert forall|k: int| 0 <= k < 3 implies positions_ok(
            #[trigger] state.lists()[k],
            tiles@.len() as int,
        ) by {
            if k == d {
                assert forall|i: int| 0 <= i < rest.len() implies (#[trigger] rest[i]) < tiles@.len() by {
                    assert(l[k][i] < tiles@.len());
                    if i >= p {
                        assert(l[k][i + 1] < tiles@.len());
                    }
                }
            }
        }
        assert(state.consistent(tiles@, n_classes as int));
    }
    place(state, tiles, t, key, n_classes, recipient_after);
    proof {
        let m = moved(l, d as int, t as int, p as int);
        assert(state.lists() =~= m);
        vstd::seq_lib::to_multiset_remove(l[d as int], p as int);
        vstd::seq_lib::to_multiset_build(l[t as int], x);
        assert(l[d as int].to_multiset().count(x) > 0) by {
            assert(l[d as int].contains(x));
        }
        assert(m[d as int] == rest);
        assert(m[t as int] == l[t as int].push(x));
        assert(all_listed(m) =~= all_listed(l));
    }
}

// ── What the choices are ────────────────────────────────────────────────────

/// The points of listed tiles, in all and of one class, are the sums over the
/// tiles.
pub proof fn law_totals_are_sums(tiles: Seq<TileInfo>, list: Seq<usize>, c: int)
    ensures
        total_of(tiles, list) == sum_of(
            list.map_values(|i: usize| tiles[i as int].total as int),
        ),
        count_of(tiles, list, c) == sum_of(
            list.map_values(|i: usize| tiles[i as int].counts@[c] as int),
        ),
    decreases list.len(),
{
    let a = list.map_values(|i: usize| tiles[i as int].total as int);
    let b = list.map_values(|i: usize| tiles[i as int].counts@[c] as int);
    if list.len() > 0 {
        law_totals_are_sums(tiles, list.drop_last(), c);
        assert(a.drop_last() =~= list.drop_last().map_values(
            |i: usize| tiles[i as int].total as int,
        ));
        assert(b.drop_last() =~= list.drop_last().map_values(
            |i: usize| tiles[i as int].counts@[c] as int,
        ));
    }
}

/// A tile joins an active subset in which it costs no more than in any other
/// active one, the first of those where it costs the same. Only where no active
/// subset has a finite cost it joins the first.
pub proof fn law_tile_joins_the_cheapest(
    model: PlacementCost,
    tiles: Seq<TileInfo>,
    n_classes: int,
    active: Seq<bool>,
    order: Seq<usize>,
    x: usize,
)
    requires
        active.len() == 3,
    ensures
        ({
            let l = greedy(model, tiles, n_classes, active, order);
            let after = greedy(model, tiles, n_classes, active, order.push(x));
            let cost = |s: int|
                model(
                    s,
                    total_of(tiles, l[s].push(x)) as u64,
                    Seq::new(n_classes as nat, |c: int| count_of(tiles, l[s].push(x), c) as u64),
                );
            &&& l.len() == 3
            &&& exists|s: int|
                0 <= s < 3 && after == l.update(s, (#[trigger] l[s]).push(x)) && ((forall|t: int|
                    0 <= t < 3 && #[trigger] active[t] ==> cost(t) >= INFINITY) ==> s == 0) && ((
                exists|t: int| 0 <= t < 3 && #[trigger] active[t] && cost(t) < INFINITY)
                    ==> active[s] && forall|t: int|
                    0 <= t < 3 && #[trigger] active[t] ==> cost(s) <= cost(t) && (t < s ==> cost(s)
                        < cost(t)))
        }),
{
    let l = greedy(model, tiles, n_classes, active, order);
    lemma_three_lists(model, tiles, n_classes, active, order);
    assert(order.push(x).drop_last() =~= order);
    let s = choice(model, tiles, n_classes, active, l, x);
    let cost = |s: int|
        model(
            s,
            total_of(tiles, l[s].push(x)) as u64,
            Seq::new(n_classes as nat, |c: int| count_of(tiles, l[s].push(x), c) as u64),
        );
    assert(cost(0) == placement_cost(model, tiles, n_classes, l, x, 0));
    assert(cost(1) == placement_cost(model, tiles, n_classes, l, x, 1));
    assert(cost(2) == placement_cost(model, tiles, n_classes, l, x, 2));
    assert(active[0] || !active[0]);
    assert(active[1] || !active[1]);
    assert(active[2] || !active[2]);
    assert(greedy(model, tiles, n_classes, active, order.push(x)) == l.update(s, l[s].push(x)));
    if forall|t: int| 0 <= t < 3 && #[trigger] active[t] ==> cost(t) >= INFINITY {
        assert(s == 0);
    }
    if exists|t: int| 0 <= t < 3 && #[trigger] active[t] && cost(t) < INFINITY {
        assert(active[s]);
        assert forall|t: int| 0 <= t < 3 && #[trigger] active[t] implies cost(s) <= cost(t) && (t
            < s ==> cost(s) < cost(t)) by {
            assert(t == 0 || t == 1 || t == 2);
        }
    }
}

proof fn lemma_three_lists(
    model: PlacementCost,
    tiles: Seq<TileInfo>,
    n_classes: int,
    active: Seq<bool>,
    order: Seq<usize>,
)
    ensures
        greedy(model, tiles, n_classes, active, order).len() == 3,
    decreases order.len(),
{
    if order.len() > 0 {
        lemma_three_lists(model, tiles, n_classes, active, order.drop_last());
    }
}

/// A corrective move takes a tile from the active subset that is furthest over
/// its target to the active one that is furthest under it. None is made where
/// every active subset is within one tile of its target.
pub proof fn law_moves_go_from_over_full_to_under_full(
    active: Seq<bool>,
    targets: Seq<i64>,
    l: Seq<Seq<usize>>,
)
    requires
        l.len() == 3,
        active.len() == 3,
        targets.len() == 3,
    ensures
        next_move(active, targets, l) matches Some((d, r)) ==> {
            &&& 0 <= d < 3 && 0 <= r < 3 && d != r
            &&& active[d] && active[r]
            &&& l[d].len() > 0
            &&& l[d].len() - targets[d] > 1 || l[r].len() - targets[r] < -1
            &&& forall|s: int|
                0 <= s < 3 && #[trigger] active[s] ==> l[r].len() - targets[r] <= l[s].len()
                    - targets[s]
            &&& forall|s: int|
                0 <= s < 3 && #[trigger] active[s] && l[s].len() > 0 ==> l[s].len() - targets[s]
                    <= l[d].len() - targets[d]
        },
        (forall|s: int|
            0 <= s < 3 && #[trigger] active[s] ==> -1 <= l[s].len() - targets[s] <= 1)
            ==> next_move(active, targets, l) is None,
{
    assert(active[0] || !active[0]);
    assert(active[1] || !active[1]);
    assert(active[2] || !active[2]);
}

/// Where costs are ranked by their size, the tile that moves is one that costs
/// no more than any other of the donor's, and of those that cost the same one
/// with no more points than any other.
pub proof fn law_best_move_is_cheapest(
    model: MoveCost,
    ranking: CostRanking,
    tiles: Seq<TileInfo>,
    n_classes: int,
    from: Seq<usize>,
    to: Seq<usize>,
    k: int,
)
    requires
        0 < k <= from.len(),
        forall|a: u64, b: u64| #[trigger]
            ranking(a, b) == if a < b {
                CostOrder::Cheaper
            } else if a == b {
                CostOrder::Tied
            } else {
                CostOrder::Dearer
            },
    ensures
        ({
            let cost = |i: int|
                model(
                    total_of(tiles, from.remove(i)) as u64,
                    counts_of(tiles, from.remove(i), n_classes),
                    total_of(tiles, to.push(from[i])) as u64,
                    counts_of(tiles, to.push(from[i]), n_classes),
                );
            best_move(model, ranking, tiles, n_classes, from, to, k) matches Some((i, c, points))
                && 0 <= i < k && c == cost(i) && points == tiles[from[i] as int].total
                && forall|j: int|
                0 <= j < k ==> {
                    let x = #[trigger] from[j];
                    cost(i) < cost(j) || (cost(i) == cost(j) && points <= tiles[x as int].total)
                }
        }),
    decreases k,
{
    if k > 1 {
        law_best_move_is_cheapest(model, ranking, tiles, n_classes, from, to, k - 1);
    } else {
        assert(best_move(model, ranking, tiles, n_classes, from, to, 0) is None);
    }
}

/// A round of rebalancing leaves the lists where no move is called for. Else it
/// takes one tile, the cheapest to move, from the donor's list to the end of the
/// recipient's, leaves the third list, and goes on from there with one round
/// less. The returned lists are those after that move.
pub proof fn law_a_round_moves_one_tile(
    model: MoveCost,
    ranking: CostRanking,
    tiles: Seq<TileInfo>,
    n_classes: int,
    active: Seq<bool>,
    targets: Seq<i64>,
    l: Seq<Seq<usize>>,
    moves: int,
) -> (next: Seq<Seq<usize>>)
    requires
        l.len() == 3,
        active.len() == 3,
        targets.len() == 3,
        moves > 0,
    ensures
        next_move(active, targets, l) is None ==> rebalanced(
            model,
            ranking,
            tiles,
            n_classes,
            active,
            targets,
            l,
            moves,
        ) == l,
        next_move(active, targets, l) matches Some((d, r)) ==> ({
            let best = best_move(
                model,
                ranking,
                tiles,
                n_classes,
                l[d],
                l[r],
                l[d].len() as int,
            );
            let i = best.unwrap().0;
            &&& next.len() == 3
            &&& next[d] == l[d].remove(i)
            &&& next[r] == l[r].push(l[d][i])
            &&& forall|s: int| 0 <= s < 3 && s != d && s != r ==> #[trigger] next[s] == l[s]
            &&& rebalanced(model, ranking, tiles, n_classes, active, targets, l, moves)
                == rebalanced(model, ranking, tiles, n_classes, active, targets, next, moves - 1)
        }),
        rebalanced(model, ranking, tiles, n_classes, active, targets, l, 0) == l,
{
    law_moves_go_from_over_full_to_under_full(active, targets, l);
    match next_move(active, targets, l) {
        None => l,
        Some((d, r)) => {
            let best = best_move(
                model,
                ranking,
                tiles,
                n_classes,
                l[d],
                l[r],
                l[d].len() as int,
            );
            moved(l, d, r, best.unwrap().0)
        },
    }
}

} // verus!
