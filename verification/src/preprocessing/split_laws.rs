//! Laws of the three-way split.

use vstd::multiset::Multiset;
use vstd::prelude::*;

use crate::ordering::{law_shuffle_permutes, law_sort_is_stable, shuffled};
use crate::preprocessing::dataset_split::{
    all_positions, class_number, collected, is_split, is_tile_list, key_less,
    lemma_positions_of_multiset, models, placement_order, refs_in, split_made, stratified_lists,
    stratified_outcome, tile_blocks, totals_of, BlockRef, GlobalMoveCost, GlobalPlacementCost,
    MultiThreeWaySplit, SplitRequest, TileKey,
};
use crate::preprocessing::labeled_pipeline::{LabeledBlockManifest, LabeledBlockMeta};
use crate::preprocessing::split_assign::{
    all_listed, best_move, choice, count_of, counts_of, greedy, move_cost, moved, next_move,
    positions_ok, rebalanced, total_of, CostOrder, CostRanking, MoveCost, PlacementCost, TileInfo,
};

verus! {

/// The blocks of one manifest, in their order.
pub open spec fn dir_refs(dir: usize, blocks: Seq<LabeledBlockMeta>) -> Seq<BlockRef> {
    Seq::new(blocks.len(), |j: int| (dir, blocks[j].meta.id))
}

/// The blocks of the first `dirs` manifests, in their order.
pub open spec fn all_refs(manifests: Seq<&LabeledBlockManifest>, dirs: int) -> Seq<BlockRef>
    decreases dirs,
{
    if dirs <= 0 {
        Seq::empty()
    } else {
        all_refs(manifests, dirs - 1) + dir_refs(
            (dirs - 1) as usize,
            manifests[dirs - 1].blocks@,
        )
    }
}

spec fn sum_to(f: spec_fn(int) -> Multiset<BlockRef>, n: int) -> Multiset<BlockRef>
    decreases n,
{
    if n <= 0 {
        Multiset::empty()
    } else {
        sum_to(f, n - 1).add(f(n - 1))
    }
}

proof fn lemma_sum_to_same(
    f: spec_fn(int) -> Multiset<BlockRef>,
    g: spec_fn(int) -> Multiset<BlockRef>,
    n: int,
)
    requires
        forall|i: int| 0 <= i < n ==> #[trigger] f(i) == g(i),
    ensures
        sum_to(f, n) == sum_to(g, n),
    decreases n,
{
    if n > 0 {
        lemma_sum_to_same(f, g, n - 1);
        assert(f(n - 1) == g(n - 1));
    }
}

proof fn lemma_sum_to_insert(
    f: spec_fn(int) -> Multiset<BlockRef>,
    g: spec_fn(int) -> Multiset<BlockRef>,
    n: int,
    p: int,
    x: BlockRef,
)
    requires
        0 <= p < n,
        forall|i: int| 0 <= i < n && i != p ==> #[trigger] g(i) == f(i),
        g(p) == f(p).insert(x),
    ensures
        sum_to(g, n) == sum_to(f, n).insert(x),
    decreases n,
{
    if p == n - 1 {
        lemma_sum_to_same(f, g, n - 1);
        assert(sum_to(g, n) =~= sum_to(f, n).insert(x));
    } else {
        lemma_sum_to_insert(f, g, n - 1, p, x);
        assert(g(n - 1) == f(n - 1));
        assert(sum_to(g, n) =~= sum_to(f, n).insert(x));
    }
}

spec fn tile_bag(manifests: Seq<&LabeledBlockManifest>, keys: Seq<TileKey>, i: int) -> Multiset<
    BlockRef,
> {
    tile_blocks(manifests, keys[i]).to_multiset()
}

spec fn list_bag(
    manifests: Seq<&LabeledBlockManifest>,
    keys: Seq<TileKey>,
    list: Seq<usize>,
) -> Multiset<BlockRef>
    decreases list.len(),
{
    if list.len() == 0 {
        Multiset::empty()
    } else {
        list_bag(manifests, keys, list.drop_last()).add(
            tile_bag(manifests, keys, list.last() as int),
        )
    }
}

proof fn lemma_multiset_concat<A>(a: Seq<A>, b: Seq<A>)
    ensures
        (a + b).to_multiset() == a.to_multiset().add(b.to_multiset()),
    decreases b.len(),
{
    broadcast use vstd::seq_lib::group_to_multiset_ensures;

    if b.len() == 0 {
        assert(a + b =~= a);
        assert(a.to_multiset().add(b.to_multiset()) =~= a.to_multiset());
    } else {
        lemma_multiset_concat(a, b.drop_last());
        assert(a + b =~= (a + b.drop_last()).push(b.last()));
        assert(b =~= b.drop_last().push(b.last()));
        vstd::seq_lib::to_multiset_build(a + b.drop_last(), b.last());
        vstd::seq_lib::to_multiset_build(b.drop_last(), b.last());
        assert((a + b).to_multiset() =~= a.to_multiset().add(b.to_multiset()));
    }
}

proof fn lemma_collected_bag(
    manifests: Seq<&LabeledBlockManifest>,
    keys: Seq<TileKey>,
    list: Seq<usize>,
)
    ensures
        collected(manifests, keys, list).to_multiset() == list_bag(manifests, keys, list),
    decreases list.len(),
{
    broadcast use vstd::seq_lib::group_to_multiset_ensures;

    if list.len() == 0 {
        assert(collected(manifests, keys, list).to_multiset() =~= Multiset::empty());
    } else {
        lemma_collected_bag(manifests, keys, list.drop_last());
        lemma_multiset_concat(
            collected(manifests, keys, list.drop_last()),
            tile_blocks(manifests, keys[list.last() as int]),
        );
    }
}

proof fn lemma_list_bag_concat(
    manifests: Seq<&LabeledBlockManifest>,
    keys: Seq<TileKey>,
    a: Seq<usize>,
    b: Seq<usize>,
)
    ensures
        list_bag(manifests, keys, a + b) == list_bag(manifests, keys, a).add(
            list_bag(manifests, keys, b),
        ),
    decreases b.len(),
{
    if b.len() == 0 {
        assert(a + b =~= a);
        assert(list_bag(manifests, keys, a).add(list_bag(manifests, keys, b)) =~= list_bag(
            manifests,
            keys,
            a,
        ));
    } else {
        lemma_list_bag_concat(manifests, keys, a, b.drop_last());
        assert((a + b).drop_last() =~= a + b.drop_last());
        assert(list_bag(manifests, keys, a + b) =~= list_bag(manifests, keys, a).add(
            list_bag(manifests, keys, b),
        ));
    }
}

proof fn lemma_list_bag_remove(
    manifests: Seq<&LabeledBlockManifest>,
    keys: Seq<TileKey>,
    list: Seq<usize>,
    k: int,
)
    requires
        0 <= k < list.len(),
    ensures
        list_bag(manifests, keys, list) == list_bag(manifests, keys, list.remove(k)).add(
            tile_bag(manifests, keys, list[k] as int),
        ),
    decreases list.len(),
{
    let r = list.remove(k);
    if k == list.len() - 1 {
        assert(r =~= list.drop_last());
    } else {
        lemma_list_bag_remove(manifests, keys, list.drop_last(), k);
        assert(r.drop_last() =~= list.drop_last().remove(k));
        assert(list_bag(manifests, keys, list) =~= list_bag(manifests, keys, r).add(
            tile_bag(manifests, keys, list[k] as int),
        ));
    }
}

proof fn lemma_list_bag_permutes(
    manifests: Seq<&LabeledBlockManifest>,
    keys: Seq<TileKey>,
    a: Seq<usize>,
    b: Seq<usize>,
)
    requires
        a.to_multiset() == b.to_multiset(),
    ensures
        list_bag(manifests, keys, a) == list_bag(manifests, keys, b),
    decreases a.len(),
{
    broadcast use vstd::seq_lib::group_to_multiset_ensures;

    assert(a.len() == a.to_multiset().len());
    assert(b.len() == b.to_multiset().len());
    if a.len() > 0 {
        let x = a.last();
        assert(a.contains(x)) by {
            assert(a[a.len() - 1] == x);
        }
        assert(b.to_multiset().count(x) > 0);
        assert(b.contains(x));
        let k = choose|k: int| 0 <= k < b.len() && b[k] == x;
        let rest = b.remove(k);
        vstd::seq_lib::to_multiset_remove(b, k);
        assert(a =~= a.drop_last().push(x));
        vstd::seq_lib::to_multiset_build(a.drop_last(), x);
        assert(a.drop_last().to_multiset() =~= a.to_multiset().remove(x));
        assert(rest.to_multiset() =~= b.to_multiset().remove(x));
        lemma_list_bag_permutes(manifests, keys, a.drop_last(), rest);
        lemma_list_bag_remove(manifests, keys, b, k);
    }
}

spec fn prefix_bag(
    manifests: Seq<&LabeledBlockManifest>,
    keys: Seq<TileKey>,
    dirs: int,
    upto: int,
    i: int,
) -> Multiset<BlockRef> {
    let key = keys[i];
    if key.0 < dirs {
        tile_blocks(manifests, key).to_multiset()
    } else if key.0 == dirs {
        refs_in(key.0, manifests[key.0 as int].blocks@.take(upto), key.1).to_multiset()
    } else {
        Multiset::empty()
    }
}

proof fn lemma_prefix_sum(
    manifests: Seq<&LabeledBlockManifest>,
    keys: Seq<TileKey>,
    dirs: int,
    upto: int,
)
    requires
        is_tile_list(keys, manifests),
        manifests.len() <= usize::MAX,
        0 <= dirs <= manifests.len(),
        dirs == manifests.len() ==> upto == 0,
        dirs < manifests.len() ==> 0 <= upto <= manifests[dirs].blocks@.len(),
    ensures
        ({
            let f = |i: int| prefix_bag(manifests, keys, dirs, upto, i);
            let blocks = if dirs < manifests.len() {
                dir_refs(dirs as usize, manifests[dirs].blocks@).take(upto)
            } else {
                Seq::empty()
            };
            sum_to(f, keys.len() as int) == (all_refs(manifests, dirs) + blocks).to_multiset()
        }),
    decreases dirs, upto,
{
    broadcast use vstd::seq_lib::group_to_multiset_ensures;

    let n = keys.len() as int;
    let f = |i: int| prefix_bag(manifests, keys, dirs, upto, i);
    let blocks = if dirs < manifests.len() {
        dir_refs(dirs as usize, manifests[dirs].blocks@).take(upto)
    } else {
        Seq::empty()
    };
    let whole = all_refs(manifests, dirs) + blocks;
    if upto > 0 {
        let j = upto - 1;
        let b = manifests[dirs].blocks@;
        let g = |i: int| prefix_bag(manifests, keys, dirs, j, i);
        lemma_prefix_sum(manifests, keys, dirs, j);
        let key = (dirs as usize, b[j].macro_tile_id);
        let x = (dirs as usize, b[j].meta.id);
        assert(keys.contains(key));
        let p = choose|p: int| 0 <= p < n && keys[p] == key;
        assert(b.take(upto).drop_last() =~= b.take(j));
        assert(b.take(upto).last() == b[j]);
        assert forall|i: int| 0 <= i < n && i != p implies #[trigger] f(i) == g(i) by {
            if i < p {
                assert(key_less(keys[i], keys[p]));
            } else {
                assert(key_less(keys[p], keys[i]));
            }
        }
        assert(f(p) == g(p).insert(x)) by {
            vstd::seq_lib::to_multiset_build(refs_in(key.0, b.take(j), key.1), x);
        }
        lemma_sum_to_insert(g, f, n, p, x);
        let before = all_refs(manifests, dirs) + dir_refs(dirs as usize, b).take(j);
        assert(whole =~= before.push(x));
        vstd::seq_lib::to_multiset_build(before, x);
    } else if dirs > 0 {
        let prev = manifests[dirs - 1].blocks@;
        let g = |i: int| prefix_bag(manifests, keys, dirs - 1, prev.len() as int, i);
        lemma_prefix_sum(manifests, keys, dirs - 1, prev.len() as int);
        assert(prev.take(prev.len() as int) =~= prev);
        assert forall|i: int| 0 <= i < n implies #[trigger] f(i) == g(i) by {
            if keys[i].0 == dirs {
                assert(manifests[dirs].blocks@.take(0) =~= Seq::empty());
                assert(f(i) =~= Multiset::empty());
            }
        }
        lemma_sum_to_same(f, g, n);
        let refs = dir_refs((dirs - 1) as usize, prev);
        assert(refs.take(prev.len() as int) =~= refs);
        assert(whole =~= all_refs(manifests, dirs - 1) + refs);
    } else {
        assert forall|i: int| 0 <= i < n implies #[trigger] f(i) == Multiset::<BlockRef>::empty() by {
            if keys[i].0 == 0 {
                assert(manifests[0].blocks@.take(0) =~= Seq::empty());
                assert(f(i) =~= Multiset::empty());
            }
        }
        lemma_sum_to_empty(f, n);
        assert(whole =~= Seq::empty());
        assert(whole.to_multiset() =~= Multiset::empty());
    }
}

proof fn lemma_sum_to_empty(f: spec_fn(int) -> Multiset<BlockRef>, n: int)
    requires
        forall|i: int| 0 <= i < n ==> #[trigger] f(i) == Multiset::<BlockRef>::empty(),
    ensures
        sum_to(f, n) == Multiset::<BlockRef>::empty(),
    decreases n,
{
    if n > 0 {
        lemma_sum_to_empty(f, n - 1);
        assert(f(n - 1) == Multiset::<BlockRef>::empty());
        assert(sum_to(f, n) =~= Multiset::empty());
    }
}

proof fn lemma_all_positions_bag(
    manifests: Seq<&LabeledBlockManifest>,
    keys: Seq<TileKey>,
    n: int,
)
    requires
        0 <= n <= keys.len(),
        n <= usize::MAX,
    ensures
        list_bag(manifests, keys, all_positions(n)) == sum_to(
            |i: int| tile_bag(manifests, keys, i),
            n,
        ),
    decreases n,
{
    if n > 0 {
        lemma_all_positions_bag(manifests, keys, n - 1);
        assert(all_positions(n).drop_last() =~= all_positions(n - 1));
        assert(all_positions(n).last() == n - 1);
    }
}

/// The three subsets are disjoint and complete: together they hold every block
/// of every manifest, each exactly as often as the manifests do.
pub proof fn law_split_is_partition(
    split: MultiThreeWaySplit,
    manifests: Seq<&LabeledBlockManifest>,
    keys: Seq<TileKey>,
    l: Seq<Seq<usize>>,
)
    requires
        is_split(split, manifests, keys, l),
        manifests.len() <= usize::MAX,
        keys.len() <= usize::MAX,
    ensures
        split.train@.to_multiset().add(split.val@.to_multiset()).add(split.test@.to_multiset())
            == all_refs(manifests, manifests.len() as int).to_multiset(),
{
    broadcast use vstd::seq_lib::group_to_multiset_ensures;

    let n = keys.len() as int;
    let all = l[0] + l[1] + l[2];
    lemma_collected_bag(manifests, keys, l[0]);
    lemma_collected_bag(manifests, keys, l[1]);
    lemma_collected_bag(manifests, keys, l[2]);
    lemma_multiset_concat(l[0], l[1]);
    lemma_multiset_concat(l[0] + l[1], l[2]);
    assert(all.to_multiset() == all_positions(n).to_multiset());
    lemma_list_bag_concat(manifests, keys, l[0], l[1]);
    lemma_list_bag_concat(manifests, keys, l[0] + l[1], l[2]);
    lemma_list_bag_permutes(manifests, keys, all, all_positions(n));
    lemma_all_positions_bag(manifests, keys, n);
    let dirs = manifests.len() as int;
    lemma_prefix_sum(manifests, keys, dirs, 0);
    let f = |i: int| prefix_bag(manifests, keys, dirs, 0, i);
    let g = |i: int| tile_bag(manifests, keys, i);
    assert forall|i: int| 0 <= i < n implies #[trigger] f(i) == g(i) by {
        assert(keys[i].0 < manifests.len());
    }
    lemma_sum_to_same(f, g, n);
    assert(all_refs(manifests, dirs) + Seq::empty() =~= all_refs(manifests, dirs));
}

/// The split is spatially disjoint: every macro-tile is in exactly one subset,
/// once, so its blocks stay together.
pub proof fn law_tiles_stay_together(
    split: MultiThreeWaySplit,
    manifests: Seq<&LabeledBlockManifest>,
    keys: Seq<TileKey>,
    l: Seq<Seq<usize>>,
    tile: usize,
)
    requires
        is_split(split, manifests, keys, l),
        keys.len() <= usize::MAX,
        tile < keys.len(),
    ensures
        l[0].to_multiset().count(tile) + l[1].to_multiset().count(tile)
            + l[2].to_multiset().count(tile) == 1,
        l[0].contains(tile) || l[1].contains(tile) || l[2].contains(tile),
        !(l[0].contains(tile) && l[1].contains(tile)),
        !(l[0].contains(tile) && l[2].contains(tile)),
        !(l[1].contains(tile) && l[2].contains(tile)),
{
    broadcast use vstd::seq_lib::group_to_multiset_ensures;

    let n = keys.len() as int;
    lemma_position_count(n, tile);
    assert(all_listed(l).count(tile) == 1);
}

proof fn lemma_position_count(n: int, x: usize)
    requires
        0 <= n <= usize::MAX,
    ensures
        all_positions(n).to_multiset().count(x) == (if x < n {
            1nat
        } else {
            0nat
        }),
    decreases n,
{
    broadcast use vstd::seq_lib::group_to_multiset_ensures;

    if n > 0 {
        lemma_position_count(n - 1, x);
        let last = (n - 1) as usize;
        assert(all_positions(n) =~= all_positions(n - 1).push(last));
        vstd::seq_lib::to_multiset_build(all_positions(n - 1), last);
    }
}

/// The list of macro-tiles is determined by the manifests alone.
pub proof fn law_tile_list_is_unique(
    a: Seq<TileKey>,
    b: Seq<TileKey>,
    manifests: Seq<&LabeledBlockManifest>,
)
    requires
        is_tile_list(a, manifests),
        is_tile_list(b, manifests),
        manifests.len() <= usize::MAX,
    ensures
        a == b,
{
    assert forall|x: TileKey| a.contains(x) implies b.contains(x) by {
        lemma_listed_has_block(a, manifests, x);
    }
    assert forall|x: TileKey| b.contains(x) implies a.contains(x) by {
        lemma_listed_has_block(b, manifests, x);
    }
    lemma_ascending_unique(a, b);
}

proof fn lemma_listed_has_block(
    keys: Seq<TileKey>,
    manifests: Seq<&LabeledBlockManifest>,
    x: TileKey,
)
    requires
        is_tile_list(keys, manifests),
        keys.contains(x),
    ensures
        exists|j: int|
            0 <= j < manifests[x.0 as int].blocks@.len() && (
            #[trigger] manifests[x.0 as int].blocks@[j]).macro_tile_id == x.1,
        x.0 < manifests.len(),
{
    let i = choose|i: int| 0 <= i < keys.len() && keys[i] == x;
    assert(tile_blocks(manifests, keys[i]).len() > 0);
    lemma_refs_nonempty(x.0, manifests[x.0 as int].blocks@, x.1);
}

proof fn lemma_refs_nonempty(dir: usize, blocks: Seq<LabeledBlockMeta>, tile: u32)
    requires
        refs_in(dir, blocks, tile).len() > 0,
    ensures
        exists|j: int| 0 <= j < blocks.len() && (#[trigger] blocks[j]).macro_tile_id == tile,
    decreases blocks.len(),
{
    if blocks.last().macro_tile_id == tile {
        assert(blocks[blocks.len() - 1].macro_tile_id == tile);
    } else {
        lemma_refs_nonempty(dir, blocks.drop_last(), tile);
        let j = choose|j: int|
            0 <= j < blocks.drop_last().len() && (#[trigger] blocks.drop_last()[j]).macro_tile_id
                == tile;
        assert(blocks[j].macro_tile_id == tile);
    }
}

proof fn lemma_ascending_unique(a: Seq<TileKey>, b: Seq<TileKey>)
    requires
        forall|i: int, j: int| 0 <= i < j < a.len() ==> key_less(#[trigger] a[i], #[trigger] a[j]),
        forall|i: int, j: int| 0 <= i < j < b.len() ==> key_less(#[trigger] b[i], #[trigger] b[j]),
        forall|x: TileKey| a.contains(x) ==> b.contains(x),
        forall|x: TileKey| b.contains(x) ==> a.contains(x),
    ensures
        a == b,
    decreases a.len(),
{
    if a.len() == 0 {
        if b.len() > 0 {
            assert(b.contains(b[0]));
            assert(a.contains(b[0]));
        }
        assert(a =~= b);
    } else {
        assert(a.contains(a[0]));
        assert(b.contains(a[0]));
        let x = a.last();
        let y = b.last();
        assert(a.contains(x)) by {
            assert(a[a.len() - 1] == x);
        }
        assert(b.contains(y)) by {
            assert(b[b.len() - 1] == y);
        }
        let jx = choose|j: int| 0 <= j < b.len() && b[j] == x;
        let jy = choose|j: int| 0 <= j < a.len() && a[j] == y;
        assert(x == y) by {
            if jx < b.len() - 1 {
                assert(key_less(b[jx], b[b.len() - 1]));
            }
            if jy < a.len() - 1 {
                assert(key_less(a[jy], a[a.len() - 1]));
            }
        }
        let da = a.drop_last();
        let db = b.drop_last();
        assert forall|z: TileKey| da.contains(z) implies db.contains(z) by {
            let i = choose|i: int| 0 <= i < da.len() && da[i] == z;
            assert(a[i] == z);
            assert(key_less(a[i], a[a.len() - 1]));
            assert(b.contains(z));
            let j = choose|j: int| 0 <= j < b.len() && b[j] == z;
            assert(db[j] == z);
        }
        assert forall|z: TileKey| db.contains(z) implies da.contains(z) by {
            let i = choose|i: int| 0 <= i < db.len() && db[i] == z;
            assert(b[i] == z);
            assert(key_less(b[i], b[b.len() - 1]));
            assert(a.contains(z));
            let j = choose|j: int| 0 <= j < a.len() && a[j] == z;
            assert(da[j] == z);
        }
        assert forall|i: int, j: int| 0 <= i < j < da.len() implies key_less(
            #[trigger] da[i],
            #[trigger] da[j],
        ) by {
            assert(key_less(a[i], a[j]));
        }
        assert forall|i: int, j: int| 0 <= i < j < db.len() implies key_less(
            #[trigger] db[i],
            #[trigger] db[j],
        ) by {
            assert(key_less(b[i], b[j]));
        }
        lemma_ascending_unique(da, db);
        assert(a =~= da.push(x));
        assert(b =~= db.push(y));
    }
}

// ── Determinism ─────────────────────────────────────────────────────────────

spec fn same_tiles(a: Seq<TileInfo>, b: Seq<TileInfo>) -> bool {
    &&& a.len() == b.len()
    &&& forall|i: int|
        0 <= i < a.len() ==> (#[trigger] a[i]).total == b[i].total && a[i].counts@ == b[i].counts@
}

spec fn lists_ok(l: Seq<Seq<usize>>, n: int) -> bool {
    &&& l.len() == 3
    &&& positions_ok(l[0], n)
    &&& positions_ok(l[1], n)
    &&& positions_ok(l[2], n)
}

proof fn lemma_same_total(a: Seq<TileInfo>, b: Seq<TileInfo>, list: Seq<usize>, c: int)
    requires
        same_tiles(a, b),
        positions_ok(list, a.len() as int),
    ensures
        total_of(a, list) == total_of(b, list),
        count_of(a, list, c) == count_of(b, list, c),
    decreases list.len(),
{
    if list.len() > 0 {
        let d = list.drop_last();
        assert(positions_ok(d, a.len() as int)) by {
            assert forall|k: int| 0 <= k < d.len() implies (#[trigger] d[k]) < a.len() by {
                assert(list[k] < a.len());
            }
        }
        lemma_same_total(a, b, d, c);
        assert(list[list.len() - 1] < a.len());
        assert(a[list.last() as int].total == b[list.last() as int].total);
    }
}

proof fn lemma_same_counts(a: Seq<TileInfo>, b: Seq<TileInfo>, list: Seq<usize>, n_classes: int)
    requires
        same_tiles(a, b),
        positions_ok(list, a.len() as int),
    ensures
        total_of(a, list) == total_of(b, list),
        counts_of(a, list, n_classes) == counts_of(b, list, n_classes),
{
    lemma_same_total(a, b, list, 0);
    assert forall|c: int| #[trigger] count_of(a, list, c) == count_of(b, list, c) by {
        lemma_same_total(a, b, list, c);
    }
    assert(counts_of(a, list, n_classes) =~= counts_of(b, list, n_classes));
}

proof fn lemma_push_ok(list: Seq<usize>, x: usize, n: int)
    requires
        positions_ok(list, n),
        x < n,
    ensures
        positions_ok(list.push(x), n),
{
    assert forall|k: int| 0 <= k < list.push(x).len() implies (#[trigger] list.push(x)[k]) < n by {
        if k < list.len() {
            assert(list[k] < n);
        }
    }
}

proof fn lemma_remove_ok(list: Seq<usize>, i: int, n: int)
    requires
        positions_ok(list, n),
        0 <= i < list.len(),
    ensures
        positions_ok(list.remove(i), n),
        list[i] < n,
{
    assert(list[i] < n);
    assert forall|k: int| 0 <= k < list.remove(i).len() implies (#[trigger] list.remove(i)[k]) < n by {
        if k < i {
            assert(list[k] < n);
        } else {
            assert(list[k + 1] < n);
        }
    }
}

proof fn lemma_same_greedy(
    model: PlacementCost,
    a: Seq<TileInfo>,
    b: Seq<TileInfo>,
    n_classes: int,
    active: Seq<bool>,
    order: Seq<usize>,
)
    requires
        same_tiles(a, b),
        positions_ok(order, a.len() as int),
    ensures
        greedy(model, a, n_classes, active, order) == greedy(model, b, n_classes, active, order),
        lists_ok(greedy(model, a, n_classes, active, order), a.len() as int),
    decreases order.len(),
{
    if order.len() > 0 {
        let n = a.len() as int;
        let d = order.drop_last();
        let x = order.last();
        assert(positions_ok(d, n)) by {
            assert forall|k: int| 0 <= k < d.len() implies (#[trigger] d[k]) < n by {
                assert(order[k] < n);
            }
        }
        assert(order[order.len() - 1] < n);
        lemma_same_greedy(model, a, b, n_classes, active, d);
        let l = greedy(model, a, n_classes, active, d);
        lemma_push_ok(l[0], x, n);
        lemma_push_ok(l[1], x, n);
        lemma_push_ok(l[2], x, n);
        lemma_same_counts(a, b, l[0].push(x), n_classes);
        lemma_same_counts(a, b, l[1].push(x), n_classes);
        lemma_same_counts(a, b, l[2].push(x), n_classes);
        let s = choice(model, a, n_classes, active, l, x);
        assert(s == choice(model, b, n_classes, active, l, x));
        assert(s == 0 || s == 1 || s == 2);
    }
}

proof fn lemma_same_best_move(
    model: MoveCost,
    ranking: CostRanking,
    a: Seq<TileInfo>,
    b: Seq<TileInfo>,
    n_classes: int,
    from: Seq<usize>,
    to: Seq<usize>,
    k: int,
)
    requires
        same_tiles(a, b),
        positions_ok(from, a.len() as int),
        positions_ok(to, a.len() as int),
        0 <= k <= from.len(),
    ensures
        best_move(model, ranking, a, n_classes, from, to, k) == best_move(
            model,
            ranking,
            b,
            n_classes,
            from,
            to,
            k,
        ),
        k > 0 ==> best_move(model, ranking, a, n_classes, from, to, k) is Some,
        best_move(model, ranking, a, n_classes, from, to, k) matches Some((i, _, _)) ==> 0 <= i < k,
    decreases k,
{
    if k > 0 {
        lemma_same_best_move(model, ranking, a, b, n_classes, from, to, k - 1);
        let i = k - 1;
        let n = a.len() as int;
        lemma_remove_ok(from, i, n);
        lemma_push_ok(to, from[i], n);
        lemma_same_counts(a, b, from.remove(i), n_classes);
        lemma_same_counts(a, b, to.push(from[i]), n_classes);
        assert(a[from[i] as int].total == b[from[i] as int].total);
    }
}

proof fn lemma_same_rebalanced(
    model: MoveCost,
    ranking: CostRanking,
    a: Seq<TileInfo>,
    b: Seq<TileInfo>,
    n_classes: int,
    active: Seq<bool>,
    targets: Seq<i64>,
    l: Seq<Seq<usize>>,
    moves: int,
)
    requires
        same_tiles(a, b),
        lists_ok(l, a.len() as int),
    ensures
        rebalanced(model, ranking, a, n_classes, active, targets, l, moves) == rebalanced(
            model,
            ranking,
            b,
            n_classes,
            active,
            targets,
            l,
            moves,
        ),
    decreases moves,
{
    if moves > 0 {
        match next_move(active, targets, l) {
            None => {},
            Some((d, r)) => {
                assert(d == 0 || d == 1 || d == 2);
                assert(r == 0 || r == 1 || r == 2);
                let n = a.len() as int;
                lemma_same_best_move(
                    model,
                    ranking,
                    a,
                    b,
                    n_classes,
                    l[d],
                    l[r],
                    l[d].len() as int,
                );
                let i = best_move(
                    model,
                    ranking,
                    a,
                    n_classes,
                    l[d],
                    l[r],
                    l[d].len() as int,
                ).unwrap().0;
                lemma_remove_ok(l[d], i, n);
                lemma_push_ok(l[r], l[d][i], n);
                lemma_same_rebalanced(
                    model,
                    ranking,
                    a,
                    b,
                    n_classes,
                    active,
                    targets,
                    moved(l, d, r, i),
                    moves - 1,
                );
            },
        }
    }
}

proof fn lemma_same_stratified(
    p: GlobalPlacementCost,
    m: GlobalMoveCost,
    r: CostRanking,
    a: Seq<TileInfo>,
    b: Seq<TileInfo>,
    global: Seq<u64>,
    n_classes: int,
    active: Seq<bool>,
    targets: Seq<i64>,
    seed: u64,
)
    requires
        same_tiles(a, b),
        a.len() <= usize::MAX,
    ensures
        stratified_lists(p, m, r, a, global, n_classes, active, targets, seed) == stratified_lists(
            p,
            m,
            r,
            b,
            global,
            n_classes,
            active,
            targets,
            seed,
        ),
{
    let n = a.len() as int;
    let all = all_positions(n);
    assert(totals_of(a) =~= totals_of(b));
    let order = placement_order(a, seed);
    law_shuffle_permutes(all, seed);
    law_sort_is_stable(shuffled(all, seed), totals_of(a), 0);
    lemma_positions_of_multiset(order, all, n);
    let pm = |s: int, total: u64, counts: Seq<u64>| p(global, s, total, counts);
    let mm = |dt: u64, dc: Seq<u64>, rt: u64, rc: Seq<u64>| m(global, dt, dc, rt, rc);
    lemma_same_greedy(pm, a, b, n_classes, active, order);
    lemma_same_rebalanced(
        mm,
        r,
        a,
        b,
        n_classes,
        active,
        targets,
        greedy(pm, a, n_classes, active, order),
        n + 1,
    );
}

/// The split is deterministic: with cost functions that follow a model, the
/// same manifests, request and seed always give the same three subsets.
pub proof fn law_split_is_deterministic<
    F: Fn(&Vec<u64>, usize, u64, &Vec<u64>) -> u64,
    M: Fn(&Vec<u64>, u64, &Vec<u64>, u64, &Vec<u64>) -> u64,
    G: Fn(u64, u64) -> CostOrder,
>(
    cost: F,
    move_cost: M,
    ranking: G,
    p: GlobalPlacementCost,
    m: GlobalMoveCost,
    r: CostRanking,
    a: MultiThreeWaySplit,
    b: MultiThreeWaySplit,
    manifests: Seq<&LabeledBlockManifest>,
    request: SplitRequest,
    stratify_classes: bool,
    keys_a: Seq<TileKey>,
    keys_b: Seq<TileKey>,
    la: Seq<Seq<usize>>,
    lb: Seq<Seq<usize>>,
)
    requires
        models(cost, move_cost, ranking, p, m, r),
        split_made(
            cost,
            move_cost,
            ranking,
            a,
            manifests,
            request,
            stratify_classes,
            keys_a,
            la,
        ),
        split_made(
            cost,
            move_cost,
            ranking,
            b,
            manifests,
            request,
            stratify_classes,
            keys_b,
            lb,
        ),
        manifests.len() <= usize::MAX,
        keys_a.len() <= usize::MAX,
    ensures
        a.train@ == b.train@,
        a.val@ == b.val@,
        a.test@ == b.test@,
{
    law_tile_list_is_unique(keys_a, keys_b, manifests);
    if stratify_classes {
        let n = class_number(manifests[0].label_map@) as int;
        let (ta, ga) = choose|tiles: Seq<TileInfo>, global: Seq<u64>| #[trigger]
            stratified_outcome(
                cost,
                move_cost,
                ranking,
                la,
                manifests,
                request,
                keys_a,
                tiles,
                global,
            );
        let (tb, gb) = choose|tiles: Seq<TileInfo>, global: Seq<u64>| #[trigger]
            stratified_outcome(
                cost,
                move_cost,
                ranking,
                lb,
                manifests,
                request,
                keys_b,
                tiles,
                global,
            );
        assert(ga =~= gb);
        assert forall|i: int| 0 <= i < ta.len() implies (#[trigger] ta[i]).total == tb[i].total
            && ta[i].counts@ == tb[i].counts@ by {
            assert(ta[i].counts@.len() == n && tb[i].counts@.len() == n);
            assert forall|c: int| 0 <= c < n implies ta[i].counts@[c] == tb[i].counts@[c] by {}
            assert(ta[i].counts@ =~= tb[i].counts@);
        }
        lemma_same_stratified(
            p,
            m,
            r,
            ta,
            tb,
            ga,
            n,
            request.active(),
            request.targets(keys_a.len() as int),
            request.seed,
        );
    }
}

} // verus!
